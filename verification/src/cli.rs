//! The command line of the scanner: options, and the rules that derive the
//! effective settings from them.

use vstd::prelude::*;
use crate::text::{chars_of, dec_str, parse_size, parse_size_spec, parse_u64_spec, push_decimal};

verus! {

/// Threshold for collapsing small items when none is given: 100 MiB.
pub const DEFAULT_THRESHOLD: u64 = 104857600;

/// Maximum depth shown when none is given.
pub const DEFAULT_MAX_DEPTH: usize = 4;

/// Worker threads when none are given.
pub const DEFAULT_WORKERS: usize = 12;

/// The options given on the command line.
pub struct CliOptions {
    pub threshold: u64,
    pub max_depth: usize,
    /// The coverage percentage as written, to be read as a number.
    pub coverage: Option<String>,
    pub json: bool,
    pub counts: bool,
    pub report: bool,
    pub html: Option<String>,
    pub workers: usize,
    pub path: Option<String>,
}

/// What the command line asks for.
pub enum CliCommand {
    Help,
    Run(CliOptions),
}

/// The options as plain values.
pub type CliView = (u64, usize, Option<Seq<char>>, bool, bool, bool, Option<Seq<char>>, usize, Option<Seq<char>>);

pub open spec fn text_of(o: Option<String>) -> Option<Seq<char>> {
    match o {
        Some(s) => Some(s@),
        None => None,
    }
}

impl View for CliOptions {
    type V = CliView;

    open spec fn view(&self) -> CliView {
        (
            self.threshold,
            self.max_depth,
            text_of(self.coverage),
            self.json,
            self.counts,
            self.report,
            text_of(self.html),
            self.workers,
            text_of(self.path),
        )
    }
}

/// The options before any argument is read.
pub open spec fn default_options() -> CliView {
    (DEFAULT_THRESHOLD, DEFAULT_MAX_DEPTH, None, false, false, false, None, DEFAULT_WORKERS, None)
}

/// What `usize::from_str` accepts.
pub open spec fn parse_usize_spec(s: Seq<char>) -> Option<usize> {
    match parse_u64_spec(s) {
        Some(v) => if v <= usize::MAX {
            Some(v as usize)
        } else {
            None
        },
        None => None,
    }
}

/// The options after reading `args` from position `i` on, starting from
/// `acc`; `None` if help is asked for. A flag that takes a value and comes
/// last is ignored; a value that cannot be read resets the setting to its
/// default; any argument not starting with `-` is the path.
pub open spec fn options_from(args: Seq<Seq<char>>, i: int, acc: CliView) -> Option<CliView>
    decreases args.len() + 1 - i,
{
    if i < 0 || i >= args.len() {
        Some(acc)
    } else {
        let a = args[i];
        let has_value = i + 1 < args.len();
        let v = args[i + 1];
        if a == "-h"@ || a == "--help"@ {
            None
        } else if a == "-p"@ || a == "--coverage"@ {
            options_from(args, i + 2, if has_value { (acc.0, acc.1, Some(v), acc.3, acc.4, acc.5, acc.6, acc.7, acc.8) } else { acc })
        } else if a == "-t"@ || a == "--threshold"@ {
            options_from(
                args,
                i + 2,
                if has_value {
                    (
                        match parse_size_spec(v) {
                            Some(t) => t,
                            None => DEFAULT_THRESHOLD,
                        },
                        acc.1,
                        acc.2,
                        acc.3,
                        acc.4,
                        acc.5,
                        acc.6,
                        acc.7,
                        acc.8,
                    )
                } else {
                    acc
                },
            )
        } else if a == "-d"@ || a == "--depth"@ {
            options_from(
                args,
                i + 2,
                if has_value {
                    (
                        acc.0,
                        match parse_usize_spec(v) {
                            Some(d) => d,
                            None => DEFAULT_MAX_DEPTH,
                        },
                        acc.2,
                        acc.3,
                        acc.4,
                        acc.5,
                        acc.6,
                        acc.7,
                        acc.8,
                    )
                } else {
                    acc
                },
            )
        } else if a == "-j"@ || a == "--json"@ {
            options_from(args, i + 1, (acc.0, acc.1, acc.2, true, acc.4, acc.5, acc.6, acc.7, acc.8))
        } else if a == "-c"@ || a == "--counts"@ {
            options_from(args, i + 1, (acc.0, acc.1, acc.2, acc.3, true, acc.5, acc.6, acc.7, acc.8))
        } else if a == "-r"@ || a == "--report"@ {
            options_from(args, i + 1, (acc.0, acc.1, acc.2, acc.3, acc.4, true, acc.6, acc.7, acc.8))
        } else if a == "--html"@ {
            options_from(args, i + 2, if has_value { (acc.0, acc.1, acc.2, acc.3, acc.4, acc.5, Some(v), acc.7, acc.8) } else { acc })
        } else if a == "-w"@ || a == "--workers"@ {
            options_from(
                args,
                i + 2,
                if has_value {
                    (
                        acc.0,
                        acc.1,
                        acc.2,
                        acc.3,
                        acc.4,
                        acc.5,
                        acc.6,
                        match parse_usize_spec(v) {
                            Some(w) => w,
                            None => DEFAULT_WORKERS,
                        },
                        acc.8,
                    )
                } else {
                    acc
                },
            )
        } else if a.len() > 0 && a[0] == '-' {
            options_from(args, i + 1, acc)
        } else {
            options_from(args, i + 1, (acc.0, acc.1, acc.2, acc.3, acc.4, acc.5, acc.6, acc.7, Some(a)))
        }
    }
}

/// The texts of the arguments.
pub open spec fn arg_texts(args: Seq<String>) -> Seq<Seq<char>> {
    Seq::new(args.len(), |i: int| args[i]@)
}

/// Whether `s` is exactly `lit`.
fn same_text(s: &str, lit: &str) -> (r: bool)
    ensures
        r == (s@ == lit@),
{
    let a = chars_of(s);
    let b = chars_of(lit);
    if a.len() != b.len() {
        return false;
    }
    let mut i: usize = 0;
    while i < a.len()
        invariant
            i <= a.len() == b.len(),
            a@ == s@,
            b@ == lit@,
            forall|j: int| 0 <= j < i ==> a@[j] == b@[j],
        decreases a.len() - i,
    {
        if a[i] != b[i] {
            return false;
        }
        i = i + 1;
    }
    assert(a@ =~= b@);
    true
}

fn parse_usize(s: &str) -> (r: Option<usize>)
    ensures
        r == parse_usize_spec(s@),
{
    let v = chars_of(s);
    match crate::text::parse_u64_of(&v) {
        Some(x) => {
            if x <= usize::MAX as u64 {
                Some(x as usize)
            } else {
                None
            }
        },
        None => None,
    }
}

fn copy_text(s: &String) -> (r: String)
    ensures
        r@ == s@,
{
    s.clone()
}

/// Reads the command line; `args[0]` is the program name.
pub fn parse_args(args: &Vec<String>) -> (r: CliCommand)
    ensures
        match r {
            CliCommand::Help => options_from(arg_texts(args@), 1, default_options()) is None,
            CliCommand::Run(o) => options_from(arg_texts(args@), 1, default_options()) == Some(o@),
        },
{
    let ghost texts = arg_texts(args@);
    let mut o = CliOptions {
        threshold: DEFAULT_THRESHOLD,
        max_depth: DEFAULT_MAX_DEPTH,
        coverage: None,
        json: false,
        counts: false,
        report: false,
        html: None,
        workers: DEFAULT_WORKERS,
        path: None,
    };
    let n = args.len();
    let mut i: usize = 1;
    while i < n
        invariant
            1 <= i,
            n == args@.len(),
            texts == arg_texts(args@),
            options_from(texts, 1, default_options()) == options_from(texts, i as int, o@),
        decreases n - i,
    {
        let a = args[i].as_str();
        let ghost i0 = i as int;
        let ghost o0 = o@;
        assert(texts[i as int] == a@);
        let has_value = i + 1 < n;
        if has_value {
            assert(texts[i + 1] == args@[i + 1]@);
        }
        if same_text(a, "-h") || same_text(a, "--help") {
            return CliCommand::Help;
        } else if same_text(a, "-p") || same_text(a, "--coverage") {
            if has_value {
                o.coverage = Some(copy_text(&args[i + 1]));
            }
            i = if has_value { i + 2 } else { n };
            assert(options_from(texts, i0, o0) == options_from(texts, i as int, o@));
        } else if same_text(a, "-t") || same_text(a, "--threshold") {
            if has_value {
                o.threshold = match parse_size(args[i + 1].as_str()) {
                    Some(t) => t,
                    None => DEFAULT_THRESHOLD,
                };
            }
            i = if has_value { i + 2 } else { n };
            assert(options_from(texts, i0, o0) == options_from(texts, i as int, o@));
        } else if same_text(a, "-d") || same_text(a, "--depth") {
            if has_value {
                o.max_depth = match parse_usize(args[i + 1].as_str()) {
                    Some(d) => d,
                    None => DEFAULT_MAX_DEPTH,
                };
            }
            i = if has_value { i + 2 } else { n };
            assert(options_from(texts, i0, o0) == options_from(texts, i as int, o@));
        } else if same_text(a, "-j") || same_text(a, "--json") {
            o.json = true;
            i = i + 1;
            assert(options_from(texts, i0, o0) == options_from(texts, i as int, o@));
        } else if same_text(a, "-c") || same_text(a, "--counts") {
            o.counts = true;
            i = i + 1;
            assert(options_from(texts, i0, o0) == options_from(texts, i as int, o@));
        } else if same_text(a, "-r") || same_text(a, "--report") {
            o.report = true;
            i = i + 1;
            assert(options_from(texts, i0, o0) == options_from(texts, i as int, o@));
        } else if same_text(a, "--html") {
            if has_value {
                o.html = Some(copy_text(&args[i + 1]));
            }
            i = if has_value { i + 2 } else { n };
            assert(options_from(texts, i0, o0) == options_from(texts, i as int, o@));
        } else if same_text(a, "-w") || same_text(a, "--workers") {
            if has_value {
                o.workers = match parse_usize(args[i + 1].as_str()) {
                    Some(w) => w,
                    None => DEFAULT_WORKERS,
                };
            }
            i = if has_value { i + 2 } else { n };
            assert(options_from(texts, i0, o0) == options_from(texts, i as int, o@));
        } else {
            let cs = chars_of(a);
            if !(cs.len() > 0 && cs[0] == '-') {
                o.path = Some(copy_text(&args[i]));
            }
            i = i + 1;
            assert(options_from(texts, i0, o0) == options_from(texts, i as int, o@));
        }
    }
    CliCommand::Run(o)
}

/// The depth limit applied: unlimited for the HTML treemap unless a depth
/// other than the default was asked for.
pub fn effective_depth(html: bool, max_depth: usize) -> (d: usize)
    ensures
        d == (if html && max_depth == DEFAULT_MAX_DEPTH { 0 } else { max_depth }),
{
    if html && max_depth == DEFAULT_MAX_DEPTH {
        0
    } else {
        max_depth
    }
}

/// How the depth setting is shown: `"unlimited (HTML)"` for the treemap,
/// `"unlimited"` for 0, else the number.
pub fn depth_label(html: bool, max_depth: usize) -> (s: String)
    ensures
        s@ == (if html {
            "unlimited (HTML)"@
        } else if max_depth == 0 {
            "unlimited"@
        } else {
            dec_str(max_depth as nat)
        }),
{
    if html {
        String::from_str("unlimited (HTML)")
    } else if max_depth == 0 {
        String::from_str("unlimited")
    } else {
        let mut s = String::new();
        push_decimal(&mut s, max_depth as u64);
        assert(s@ =~= dec_str(max_depth as nat));
        s
    }
}

proof fn lemma_options_from_rest(a: Seq<Seq<char>>, b: Seq<Seq<char>>, j: int, acc: CliView)
    requires
        a.len() == b.len(),
        forall|k: int| j <= k < a.len() ==> a[k] == b[k],
    ensures
        options_from(a, j, acc) == options_from(b, j, acc),
    decreases a.len() + 1 - j,
{
    if 0 <= j < a.len() {
        assert forall|acc2: CliView| #[trigger] options_from(a, j + 1, acc2) == options_from(b, j + 1, acc2) by {
            lemma_options_from_rest(a, b, j + 1, acc2);
        }
        assert forall|acc2: CliView| #[trigger] options_from(a, j + 2, acc2) == options_from(b, j + 2, acc2) by {
            lemma_options_from_rest(a, b, j + 2, acc2);
        }
        assert(a[j] == b[j]);
        if j + 1 < a.len() {
            assert(a[j + 1] == b[j + 1]);
        }
        let x = a[j];
        let has_value = j + 1 < a.len();
        if x == "-h"@ || x == "--help"@ {
        } else if x == "-p"@ || x == "--coverage"@ {
            assert(options_from(a, j, acc) == options_from(a, j + 2, if has_value { (acc.0, acc.1, Some(a[j + 1]), acc.3, acc.4, acc.5, acc.6, acc.7, acc.8) } else { acc }));
            assert(options_from(b, j, acc) == options_from(b, j + 2, if has_value { (acc.0, acc.1, Some(b[j + 1]), acc.3, acc.4, acc.5, acc.6, acc.7, acc.8) } else { acc }));
        } else if x == "-t"@ || x == "--threshold"@ {
            assert(options_from(a, j, acc) == options_from(a, j + 2, if has_value { (match parse_size_spec(a[j + 1]) { Some(t) => t, None => DEFAULT_THRESHOLD }, acc.1, acc.2, acc.3, acc.4, acc.5, acc.6, acc.7, acc.8) } else { acc }));
            assert(options_from(b, j, acc) == options_from(b, j + 2, if has_value { (match parse_size_spec(b[j + 1]) { Some(t) => t, None => DEFAULT_THRESHOLD }, acc.1, acc.2, acc.3, acc.4, acc.5, acc.6, acc.7, acc.8) } else { acc }));
        } else if x == "-d"@ || x == "--depth"@ {
            assert(options_from(a, j, acc) == options_from(a, j + 2, if has_value { (acc.0, match parse_usize_spec(a[j + 1]) { Some(d) => d, None => DEFAULT_MAX_DEPTH }, acc.2, acc.3, acc.4, acc.5, acc.6, acc.7, acc.8) } else { acc }));
            assert(options_from(b, j, acc) == options_from(b, j + 2, if has_value { (acc.0, match parse_usize_spec(b[j + 1]) { Some(d) => d, None => DEFAULT_MAX_DEPTH }, acc.2, acc.3, acc.4, acc.5, acc.6, acc.7, acc.8) } else { acc }));
        } else if x == "-j"@ || x == "--json"@ {
            assert(options_from(a, j, acc) == options_from(a, j + 1, (acc.0, acc.1, acc.2, true, acc.4, acc.5, acc.6, acc.7, acc.8)));
            assert(options_from(b, j, acc) == options_from(b, j + 1, (acc.0, acc.1, acc.2, true, acc.4, acc.5, acc.6, acc.7, acc.8)));
        } else if x == "-c"@ || x == "--counts"@ {
            assert(options_from(a, j, acc) == options_from(a, j + 1, (acc.0, acc.1, acc.2, acc.3, true, acc.5, acc.6, acc.7, acc.8)));
            assert(options_from(b, j, acc) == options_from(b, j + 1, (acc.0, acc.1, acc.2, acc.3, true, acc.5, acc.6, acc.7, acc.8)));
        } else if x == "-r"@ || x == "--report"@ {
            assert(options_from(a, j, acc) == options_from(a, j + 1, (acc.0, acc.1, acc.2, acc.3, acc.4, true, acc.6, acc.7, acc.8)));
            assert(options_from(b, j, acc) == options_from(b, j + 1, (acc.0, acc.1, acc.2, acc.3, acc.4, true, acc.6, acc.7, acc.8)));
        } else if x == "--html"@ {
            assert(options_from(a, j, acc) == options_from(a, j + 2, if has_value { (acc.0, acc.1, acc.2, acc.3, acc.4, acc.5, Some(a[j + 1]), acc.7, acc.8) } else { acc }));
            assert(options_from(b, j, acc) == options_from(b, j + 2, if has_value { (acc.0, acc.1, acc.2, acc.3, acc.4, acc.5, Some(b[j + 1]), acc.7, acc.8) } else { acc }));
        } else if x == "-w"@ || x == "--workers"@ {
            assert(options_from(a, j, acc) == options_from(a, j + 2, if has_value { (acc.0, acc.1, acc.2, acc.3, acc.4, acc.5, acc.6, match parse_usize_spec(a[j + 1]) { Some(w) => w, None => DEFAULT_WORKERS }, acc.8) } else { acc }));
            assert(options_from(b, j, acc) == options_from(b, j + 2, if has_value { (acc.0, acc.1, acc.2, acc.3, acc.4, acc.5, acc.6, match parse_usize_spec(b[j + 1]) { Some(w) => w, None => DEFAULT_WORKERS }, acc.8) } else { acc }));
        } else if x.len() > 0 && x[0] == '-' {
            assert(options_from(a, j, acc) == options_from(a, j + 1, acc));
            assert(options_from(b, j, acc) == options_from(b, j + 1, acc));
        } else {
            assert(options_from(a, j, acc) == options_from(a, j + 1, (acc.0, acc.1, acc.2, acc.3, acc.4, acc.5, acc.6, acc.7, Some(x))));
            assert(options_from(b, j, acc) == options_from(b, j + 1, (acc.0, acc.1, acc.2, acc.3, acc.4, acc.5, acc.6, acc.7, Some(x))));
        }
}
}

/// `long` is the long form of the option whose short form is `short`.
pub open spec fn long_form_of(long: Seq<char>, short: Seq<char>) -> bool {
    ||| long == seq!['-', '-', 'h', 'e', 'l', 'p'] && short == seq!['-', 'h']
    ||| long == seq!['-', '-', 'c', 'o', 'v', 'e', 'r', 'a', 'g', 'e'] && short == seq!['-', 'p']
    ||| long == seq!['-', '-', 't', 'h', 'r', 'e', 's', 'h', 'o', 'l', 'd'] && short == seq!['-', 't']
    ||| long == seq!['-', '-', 'd', 'e', 'p', 't', 'h'] && short == seq!['-', 'd']
    ||| long == seq!['-', '-', 'j', 's', 'o', 'n'] && short == seq!['-', 'j']
    ||| long == seq!['-', '-', 'c', 'o', 'u', 'n', 't', 's'] && short == seq!['-', 'c']
    ||| long == seq!['-', '-', 'r', 'e', 'p', 'o', 'r', 't'] && short == seq!['-', 'r']
    ||| long == seq!['-', '-', 'w', 'o', 'r', 'k', 'e', 'r', 's'] && short == seq!['-', 'w']
}

proof fn lemma_flag_texts()
    ensures
        "--help"@ == seq!['-', '-', 'h', 'e', 'l', 'p'],
        "-h"@ == seq!['-', 'h'],
        "--coverage"@ == seq!['-', '-', 'c', 'o', 'v', 'e', 'r', 'a', 'g', 'e'],
        "-p"@ == seq!['-', 'p'],
        "--threshold"@ == seq!['-', '-', 't', 'h', 'r', 'e', 's', 'h', 'o', 'l', 'd'],
        "-t"@ == seq!['-', 't'],
        "--depth"@ == seq!['-', '-', 'd', 'e', 'p', 't', 'h'],
        "-d"@ == seq!['-', 'd'],
        "--json"@ == seq!['-', '-', 'j', 's', 'o', 'n'],
        "-j"@ == seq!['-', 'j'],
        "--counts"@ == seq!['-', '-', 'c', 'o', 'u', 'n', 't', 's'],
        "-c"@ == seq!['-', 'c'],
        "--report"@ == seq!['-', '-', 'r', 'e', 'p', 'o', 'r', 't'],
        "-r"@ == seq!['-', 'r'],
        "--workers"@ == seq!['-', '-', 'w', 'o', 'r', 'k', 'e', 'r', 's'],
        "-w"@ == seq!['-', 'w'],
        "-h"@.len() == 2 && "-p"@.len() == 2 && "-t"@.len() == 2 && "-d"@.len() == 2,
        "-j"@.len() == 2 && "-c"@.len() == 2 && "-r"@.len() == 2 && "-w"@.len() == 2,
        "--help"@.len() == 6 && "--json"@.len() == 6 && "--html"@.len() == 6,
        "--coverage"@.len() == 10 && "--threshold"@.len() == 11 && "--depth"@.len() == 7,
        "--counts"@.len() == 8 && "--report"@.len() == 8 && "--workers"@.len() == 9,
        "-h"@[1] == 'h' && "-p"@[1] == 'p' && "-t"@[1] == 't' && "-d"@[1] == 'd',
        "-j"@[1] == 'j' && "-c"@[1] == 'c' && "-r"@[1] == 'r' && "-w"@[1] == 'w',
        "--help"@[2] == 'h' && "--json"@[2] == 'j' && "--html"@[2] == 'h' && "--help"@[3] == 'e'
            && "--html"@[3] == 't',
        "--counts"@[2] == 'c' && "--report"@[2] == 'r',
        "-h"@[0] == '-' && "--help"@[0] == '-',
{
    reveal_strlit("-h");
    reveal_strlit("-p");
    reveal_strlit("-t");
    reveal_strlit("-d");
    reveal_strlit("-j");
    reveal_strlit("-c");
    reveal_strlit("-r");
    reveal_strlit("-w");
    reveal_strlit("--help");
    reveal_strlit("--coverage");
    reveal_strlit("--threshold");
    reveal_strlit("--depth");
    reveal_strlit("--json");
    reveal_strlit("--counts");
    reveal_strlit("--report");
    reveal_strlit("--html");
    reveal_strlit("--workers");
    assert("--help"@ =~= seq!['-', '-', 'h', 'e', 'l', 'p']);
    assert("-h"@ =~= seq!['-', 'h']);
    assert("--coverage"@ =~= seq!['-', '-', 'c', 'o', 'v', 'e', 'r', 'a', 'g', 'e']);
    assert("-p"@ =~= seq!['-', 'p']);
    assert("--threshold"@ =~= seq!['-', '-', 't', 'h', 'r', 'e', 's', 'h', 'o', 'l', 'd']);
    assert("-t"@ =~= seq!['-', 't']);
    assert("--depth"@ =~= seq!['-', '-', 'd', 'e', 'p', 't', 'h']);
    assert("-d"@ =~= seq!['-', 'd']);
    assert("--json"@ =~= seq!['-', '-', 'j', 's', 'o', 'n']);
    assert("-j"@ =~= seq!['-', 'j']);
    assert("--counts"@ =~= seq!['-', '-', 'c', 'o', 'u', 'n', 't', 's']);
    assert("-c"@ =~= seq!['-', 'c']);
    assert("--report"@ =~= seq!['-', '-', 'r', 'e', 'p', 'o', 'r', 't']);
    assert("-r"@ =~= seq!['-', 'r']);
    assert("--workers"@ =~= seq!['-', '-', 'w', 'o', 'r', 'k', 'e', 'r', 's']);
    assert("-w"@ =~= seq!['-', 'w']);
}

/// Each long option means what its short form means: at the position where
/// an option is read, writing `--threshold` in place of `-t` (and likewise
/// `--help`, `--coverage`, `--depth`, `--json`, `--counts`, `--report`,
/// `--workers` in place of `-h`, `-p`, `-d`, `-j`, `-c`, `-r`, `-w`) gives
/// the same options. The first argument after the program name is read as an
/// option, so this holds of `parse_args` with the option at position 1.
pub proof fn lemma_long_options(args: Seq<Seq<char>>, i: int, acc: CliView, long: Seq<char>, short: Seq<char>)
    requires
        0 <= i < args.len(),
        long_form_of(long, short),
    ensures
        options_from(args.update(i, long), i, acc) == options_from(args.update(i, short), i, acc),
{
    lemma_flag_texts();
    let a = args.update(i, long);
    let b = args.update(i, short);
    assert forall|j: int, acc2: CliView| i < j implies #[trigger] options_from(a, j, acc2) == options_from(
        b,
        j,
        acc2,
    ) by {
        lemma_options_from_rest(a, b, j, acc2);
    }
    assert(a[i] == long && b[i] == short);
    let has_value = i + 1 < args.len();
    if has_value {
        assert(a[i + 1] == b[i + 1]);
    }
    if long == "--help"@ {
        assert(options_from(a, i, acc) is None);
        assert(options_from(b, i, acc) is None);
    } else if long == "--coverage"@ {
        let e = if has_value { (acc.0, acc.1, Some(a[i + 1]), acc.3, acc.4, acc.5, acc.6, acc.7, acc.8) } else { acc };
        assert(options_from(a, i, acc) == options_from(a, i + 2, e));
        assert(options_from(b, i, acc) == options_from(b, i + 2, e));
    } else if long == "--threshold"@ {
        let e = if has_value { (match parse_size_spec(a[i + 1]) { Some(t) => t, None => DEFAULT_THRESHOLD }, acc.1, acc.2, acc.3, acc.4, acc.5, acc.6, acc.7, acc.8) } else { acc };
        assert(options_from(a, i, acc) == options_from(a, i + 2, e));
        assert(options_from(b, i, acc) == options_from(b, i + 2, e));
    } else if long == "--depth"@ {
        let e = if has_value { (acc.0, match parse_usize_spec(a[i + 1]) { Some(d) => d, None => DEFAULT_MAX_DEPTH }, acc.2, acc.3, acc.4, acc.5, acc.6, acc.7, acc.8) } else { acc };
        assert(options_from(a, i, acc) == options_from(a, i + 2, e));
        assert(options_from(b, i, acc) == options_from(b, i + 2, e));
    } else if long == "--json"@ {
        let e = (acc.0, acc.1, acc.2, true, acc.4, acc.5, acc.6, acc.7, acc.8);
        assert(options_from(a, i, acc) == options_from(a, i + 1, e));
        assert(options_from(b, i, acc) == options_from(b, i + 1, e));
    } else if long == "--counts"@ {
        let e = (acc.0, acc.1, acc.2, acc.3, true, acc.5, acc.6, acc.7, acc.8);
        assert(options_from(a, i, acc) == options_from(a, i + 1, e));
        assert(options_from(b, i, acc) == options_from(b, i + 1, e));
    } else if long == "--report"@ {
        let e = (acc.0, acc.1, acc.2, acc.3, acc.4, true, acc.6, acc.7, acc.8);
        assert(options_from(a, i, acc) == options_from(a, i + 1, e));
        assert(options_from(b, i, acc) == options_from(b, i + 1, e));
    } else if long == "--workers"@ {
        let e = if has_value { (acc.0, acc.1, acc.2, acc.3, acc.4, acc.5, acc.6, match parse_usize_spec(a[i + 1]) { Some(w) => w, None => DEFAULT_WORKERS }, acc.8) } else { acc };
        assert(options_from(a, i, acc) == options_from(a, i + 2, e));
        assert(options_from(b, i, acc) == options_from(b, i + 2, e));
    }
}

} // verus!
