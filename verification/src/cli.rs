//! Command parsing and session state for an interactive shell around the
//! store.
//!
//! A line is trimmed and split on single spaces into at most three chunks
//! (the third keeps its spaces); the first chunk selects the command.
//! Vector values are comma-separated numbers. The shell's printing and its
//! input loop live outside the library; here stand the parser and the
//! decision core that updates the session state.

use vstd::prelude::*;

use crate::embedding::{comma_values_of, parse_comma_values, trim_chars, trim_positions};
use crate::{str_eq_chars, VecBaseConfig};
use vstd::string::StrSliceExecFns;
use vstd::string::StringExecFns;

verus! {

/// A parsed shell command.
#[derive(Debug)]
pub enum Cmd {
    Insert { id: String, values: Vec<u32> },
    Search { values: Vec<u32>, top_k: usize },
    Delete { id: String },
    Get { id: String },
    Len,
    Bench { n: usize },
    Config,
    History,
    Help,
    Quit,
    Unknown(String),
}

/// The view of a parsed command: ids and texts as character sequences.
pub enum CmdView {
    Insert { id: Seq<char>, values: Seq<u32> },
    Search { values: Seq<u32>, top_k: usize },
    Delete { id: Seq<char> },
    Get { id: Seq<char> },
    Len,
    Bench { n: usize },
    Config,
    History,
    Help,
    Quit,
    Unknown { text: Seq<char> },
}

/// A command carries exactly the content of its view.
pub open spec fn cmd_matches(c: Cmd, s: CmdView) -> bool {
    match c {
        Cmd::Insert { id, values } => (s matches CmdView::Insert { id: i2, values: v2 } && id@
            == i2 && values@ == v2),
        Cmd::Search { values, top_k } => (s matches CmdView::Search { values: v2, top_k: k2 }
            && values@ == v2 && top_k == k2),
        Cmd::Delete { id } => (s matches CmdView::Delete { id: i2 } && id@ == i2),
        Cmd::Get { id } => (s matches CmdView::Get { id: i2 } && id@ == i2),
        Cmd::Len => s is Len,
        Cmd::Bench { n } => (s matches CmdView::Bench { n: n2 } && n == n2),
        Cmd::Config => s is Config,
        Cmd::History => s is History,
        Cmd::Help => s is Help,
        Cmd::Quit => s is Quit,
        Cmd::Unknown(t) => (s matches CmdView::Unknown { text } && t@ == text),
    }
}

/// The position of the first space at or after `i`, or the length when none
/// follows.
pub open spec fn space_from(s: Seq<char>, i: int) -> int
    decreases s.len() - i,
{
    if i < 0 || i >= s.len() {
        s.len() as int
    } else if s[i] == ' ' {
        i
    } else {
        space_from(s, i + 1)
    }
}

/// A decimal digit character.
pub open spec fn digit_char_val(c: char) -> bool {
    48 <= c as u32 <= 57
}

/// Fold decimal digit characters into a number: `None` on an empty text, a
/// non-digit, or overflow.
pub open spec fn parse_usize_chars_scan(s: Seq<char>, i: int, acc: Option<usize>) -> Option<usize>
    decreases s.len() - i,
{
    if i < 0 || i >= s.len() {
        acc
    } else {
        match acc {
            None => None,
            Some(a) => {
                if !digit_char_val(s[i]) {
                    None
                } else {
                    let v = (a as int) * 10 + (s[i] as u32 - 48);
                    if v > usize::MAX {
                        None
                    } else {
                        parse_usize_chars_scan(s, i + 1, Some(v as usize))
                    }
                }
            },
        }
    }
}

/// The number a run of decimal digit characters denotes.
pub open spec fn parse_usize_chars_of(s: Seq<char>) -> Option<usize> {
    if s.len() == 0 {
        None
    } else {
        parse_usize_chars_scan(s, 0, Some(0))
    }
}

/// Parse the decimal number in `s@[from..to]`.
fn parse_usize_str(s: &str, from: usize, to: usize) -> (r: Option<usize>)
    requires
        from <= to <= s@.len(),
    ensures
        r == parse_usize_chars_of(s@.subrange(from as int, to as int)),
{
    let ghost seg = s@.subrange(from as int, to as int);
    if from == to {
        return None;
    }
    let mut acc: usize = 0;
    let mut i: usize = from;
    while i < to
        invariant
            from <= i <= to <= s@.len(),
            to > from,
            seg == s@.subrange(from as int, to as int),
            parse_usize_chars_scan(seg, 0, Some(0usize)) == parse_usize_chars_scan(
                seg,
                i - from,
                Some(acc),
            ),
        decreases to - i,
    {
        proof {
            assert(s@.subrange(from as int, to as int)[i - from] == s@[i as int]);
        }
        let c = s.get_char(i);
        let d32 = c as u32;
        if d32 < 48 || d32 > 57 {
            return None;
        }
        let d = (d32 - 48) as usize;
        if acc > (usize::MAX - d) / 10 {
            proof {
                assert((acc as int) * 10 + d > usize::MAX) by (nonlinear_arith)
                    requires
                        acc as int > ((usize::MAX - d) as int) / 10,
                        0 <= d <= 9,
                ;
            }
            return None;
        }
        proof {
            assert((acc as int) * 10 + d <= usize::MAX) by (nonlinear_arith)
                requires
                    acc as int <= ((usize::MAX - d) as int) / 10,
                    0 <= d <= 9,
            ;
        }
        acc = acc * 10 + d;
        i = i + 1;
    }
    Some(acc)
}

/// What a line of input means. The line is trimmed and split at single
/// spaces into at most three chunks; an unrecognized or malformed line is
/// `Unknown`, carrying the offending text (empty for a blank line).
pub open spec fn cmd_view_of(line: Seq<char>) -> CmdView {
    let t = trim_chars(line);
    let s1 = space_from(t, 0);
    let tok1 = t.take(s1);
    if s1 == t.len() {
        if tok1 == "quit"@ || tok1 == "exit"@ || tok1 == "q"@ {
            CmdView::Quit
        } else if tok1 == "len"@ || tok1 == "count"@ {
            CmdView::Len
        } else if tok1 == "help"@ || tok1 == "h"@ || tok1 == "?"@ {
            CmdView::Help
        } else if tok1 == "config"@ {
            CmdView::Config
        } else if tok1 == "history"@ {
            CmdView::History
        } else if tok1 == "bench"@ {
            CmdView::Bench { n: 1000 }
        } else if t.len() == 0 {
            CmdView::Unknown { text: Seq::empty() }
        } else {
            CmdView::Unknown { text: line }
        }
    } else {
        let rest1 = t.skip(s1 + 1);
        let s2 = space_from(rest1, 0);
        let tok2 = rest1.take(s2);
        if s2 == rest1.len() {
            if tok1 == "search"@ {
                match comma_values_of(tok2) {
                    Some(v) => CmdView::Search { values: v, top_k: 5 },
                    None => CmdView::Unknown { text: "search: invalid float values"@ },
                }
            } else if tok1 == "delete"@ || tok1 == "del"@ || tok1 == "rm"@ {
                CmdView::Delete { id: tok2 }
            } else if tok1 == "get"@ {
                CmdView::Get { id: tok2 }
            } else if tok1 == "bench"@ {
                CmdView::Bench {
                    n: match parse_usize_chars_of(tok2) {
                        Some(n) => n,
                        None => 1000,
                    },
                }
            } else {
                CmdView::Unknown { text: line }
            }
        } else {
            let rest2 = rest1.skip(s2 + 1);
            if tok1 == "insert"@ {
                match comma_values_of(rest2) {
                    Some(v) => CmdView::Insert { id: tok2, values: v },
                    None => CmdView::Unknown {
                        text: "insert: invalid float values in '"@ + rest2 + "'"@,
                    },
                }
            } else if tok1 == "search"@ {
                match comma_values_of(tok2) {
                    Some(v) => CmdView::Search {
                        values: v,
                        top_k: match parse_usize_chars_of(trim_chars(rest2)) {
                            Some(k) => k,
                            None => 5,
                        },
                    },
                    None => CmdView::Unknown {
                        text: "search: invalid float values in '"@ + tok2 + "'"@,
                    },
                }
            } else {
                CmdView::Unknown { text: line }
            }
        }
    }
}

/// Find the first space at or after `from`, up to `to`.
fn find_space(s: &str, from: usize, to: usize) -> (r: usize)
    requires
        from <= to <= s@.len(),
    ensures
        from <= r <= to,
        space_from(s@.subrange(from as int, to as int), 0) == r - from,
        r < to ==> s@[r as int] == ' ',
{
    let ghost seg = s@.subrange(from as int, to as int);
    let mut i: usize = from;
    while i < to
        invariant
            from <= i <= to <= s@.len(),
            seg == s@.subrange(from as int, to as int),
            space_from(seg, 0) == space_from(seg, i - from),
            forall|j: int| from <= j < i ==> s@[j] != ' ',
        decreases to - i,
    {
        proof {
            assert(s@.subrange(from as int, to as int)[i - from] == s@[i as int]);
        }
        if s.get_char(i) == ' ' {
            return i;
        }
        i = i + 1;
    }
    i
}

/// Parse one line of shell input.
pub fn parse_cmd(line: &str) -> (r: Cmd)
    ensures
        cmd_matches(r, cmd_view_of(line@)),
{
    let n = line.unicode_len();
    let (a, b) = trim_positions(line, 0, n);
    proof {
        assert(line@.subrange(0, n as int) =~= line@);
    }
    let ghost t = trim_chars(line@);
    let j = find_space(line, a, b);
    proof {
        assert(t.take(j - a) =~= line@.subrange(a as int, j as int));
    }
    let tok1 = line.substring_char(a, j);
    if j == b {
        // a single chunk
        if str_eq_chars(tok1, "quit") || str_eq_chars(tok1, "exit") || str_eq_chars(tok1, "q") {
            Cmd::Quit
        } else if str_eq_chars(tok1, "len") || str_eq_chars(tok1, "count") {
            Cmd::Len
        } else if str_eq_chars(tok1, "help") || str_eq_chars(tok1, "h") || str_eq_chars(
            tok1,
            "?",
        ) {
            Cmd::Help
        } else if str_eq_chars(tok1, "config") {
            Cmd::Config
        } else if str_eq_chars(tok1, "history") {
            Cmd::History
        } else if str_eq_chars(tok1, "bench") {
            Cmd::Bench { n: 1000 }
        } else if a == b {
            Cmd::Unknown(String::new())
        } else {
            Cmd::Unknown(line.to_owned())
        }
    } else {
        let ghost rest1 = t.skip(j + 1 - a);
        proof {
            assert(rest1 =~= line@.subrange(j + 1, b as int));
        }
        let j2 = find_space(line, j + 1, b);
        proof {
            assert(rest1.take(j2 - (j + 1)) =~= line@.subrange(j + 1, j2 as int));
            assert(line@.subrange(j + 1, b as int).subrange(
                j2 - (j + 1),
                b - (j + 1),
            ) =~= line@.subrange(j2 as int, b as int));
            assert(space_from(rest1, 0) == j2 - (j + 1));
        }
        let tok2 = line.substring_char(j + 1, j2);
        if j2 == b {
            // two chunks
            if str_eq_chars(tok1, "search") {
                match parse_comma_values(line, j + 1, b) {
                    Some(v) => Cmd::Search { values: v, top_k: 5 },
                    None => Cmd::Unknown("search: invalid float values".to_owned()),
                }
            } else if str_eq_chars(tok1, "delete") || str_eq_chars(tok1, "del") || str_eq_chars(
                tok1,
                "rm",
            ) {
                Cmd::Delete { id: tok2.to_owned() }
            } else if str_eq_chars(tok1, "get") {
                Cmd::Get { id: tok2.to_owned() }
            } else if str_eq_chars(tok1, "bench") {
                let n2 = match parse_usize_str(line, j + 1, b) {
                    Some(n2) => n2,
                    None => 1000,
                };
                Cmd::Bench { n: n2 }
            } else {
                Cmd::Unknown(line.to_owned())
            }
        } else {
            let ghost rest2 = rest1.skip(j2 + 1 - (j + 1));
            proof {
                assert(rest2 =~= line@.subrange(j2 + 1, b as int));
            }
            if str_eq_chars(tok1, "insert") {
                match parse_comma_values(line, j2 + 1, b) {
                    Some(v) => Cmd::Insert { id: tok2.to_owned(), values: v },
                    None => {
                        let rest_str = line.substring_char(j2 + 1, b);
                        let mut msg = "insert: invalid float values in '".to_owned();
                        msg.append(rest_str);
                        msg.append("'");
                        Cmd::Unknown(msg)
                    },
                }
            } else if str_eq_chars(tok1, "search") {
                match parse_comma_values(line, j + 1, j2) {
                    Some(v) => {
                        let (ka, kb) = trim_positions(line, j2 + 1, b);
                        proof {
                            assert(trim_chars(rest2) == line@.subrange(ka as int, kb as int));
                        }
                        let k2 = match parse_usize_str(line, ka, kb) {
                            Some(k2) => k2,
                            None => 5,
                        };
                        Cmd::Search { values: v, top_k: k2 }
                    },
                    None => {
                        let mut msg = "search: invalid float values in '".to_owned();
                        msg.append(tok2);
                        msg.append("'");
                        Cmd::Unknown(msg)
                    },
                }
            } else {
                Cmd::Unknown(line.to_owned())
            }
        }
    }
}

/// The session state of the shell: the configuration, how many records the
/// connected store holds, and the command history (pushed by the input
/// loop).
pub struct CliState {
    pub config: VecBaseConfig,
    pub record_count: usize,
    pub history: Vec<String>,
}

impl CliState {
    pub fn new(config: VecBaseConfig) -> (r: Self)
        ensures
            r.config == config,
            r.record_count == 0,
            r.history@.len() == 0,
    {
        CliState { config, record_count: 0, history: Vec::new() }
    }

    /// The decision core of one command: whether the session goes on, and
    /// how the record count changes. An insert counts only when its vector
    /// length meets the configured dimension (the count saturates at the
    /// machine limit); a delete counts down while records remain; every
    /// other command leaves the count alone. Printing belongs to the shell
    /// around the library.
    pub fn apply(&mut self, cmd: &Cmd) -> (more: bool)
        ensures
            more == !(cmd matches Cmd::Quit),
            final(self).config == old(self).config,
            final(self).history == old(self).history,
            final(self).record_count == (match cmd {
                Cmd::Insert { values, .. } => {
                    if values@.len() == old(self).config.dim && old(self).record_count
                        < usize::MAX {
                        (old(self).record_count + 1) as usize
                    } else {
                        old(self).record_count
                    }
                },
                Cmd::Delete { .. } => {
                    if old(self).record_count > 0 {
                        (old(self).record_count - 1) as usize
                    } else {
                        0usize
                    }
                },
                _ => old(self).record_count,
            }),
    {
        match cmd {
            Cmd::Quit => false,
            Cmd::Insert { values, .. } => {
                if values.len() == self.config.dim && self.record_count < usize::MAX {
                    self.record_count = self.record_count + 1;
                }
                true
            },
            Cmd::Delete { .. } => {
                if self.record_count > 0 {
                    self.record_count = self.record_count - 1;
                }
                true
            },
            _ => true,
        }
    }
}

} // verus!
