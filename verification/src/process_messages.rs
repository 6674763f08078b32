//! The command-text grammar: free text maps to one of a few request
//! kinds by its first whitespace-delimited word, compared without regard
//! to ASCII case and with leading slashes ignored.

use vstd::prelude::*;

verus! {

/// An ASCII whitespace character, the separator of command words.
pub open spec fn is_ascii_ws(c: char) -> bool {
    c == ' ' || c == '\t' || c == '\n' || c == '\r' || c == '\u{c}'
}

/// The text with its leading whitespace removed.
pub open spec fn skip_ws(s: Seq<char>) -> Seq<char>
    decreases s.len(),
{
    if s.len() == 0 || !is_ascii_ws(s[0]) {
        s
    } else {
        skip_ws(s.drop_first())
    }
}

/// The leading run of non-whitespace characters.
pub open spec fn take_word(s: Seq<char>) -> Seq<char>
    decreases s.len(),
{
    if s.len() == 0 || is_ascii_ws(s[0]) {
        Seq::empty()
    } else {
        seq![s[0]] + take_word(s.drop_first())
    }
}

/// The first whitespace-delimited word; empty when the text holds none.
pub open spec fn first_word(s: Seq<char>) -> Seq<char> {
    take_word(skip_ws(s))
}

/// ASCII lower case of one character; anything but `A`-`Z` is left as it
/// is.
pub open spec fn lower_char(c: char) -> char {
    if 'A' <= c && c <= 'Z' {
        ((c as u32) + 32) as char
    } else {
        c
    }
}

/// ASCII lower case, character by character.
pub open spec fn lower_seq(s: Seq<char>) -> Seq<char> {
    s.map_values(|c: char| lower_char(c))
}

/// The text with its leading slashes removed.
pub open spec fn strip_slashes(s: Seq<char>) -> Seq<char>
    decreases s.len(),
{
    if s.len() == 0 || s[0] != '/' {
        s
    } else {
        strip_slashes(s.drop_first())
    }
}

/// The normalized command token: the first word, lower-cased, with its
/// leading slashes removed.
pub open spec fn spec_core_token(s: Seq<char>) -> Seq<char> {
    strip_slashes(lower_seq(first_word(s)))
}

proof fn lemma_skip_ws_at(s: Seq<char>, i: int)
    requires
        0 <= i <= s.len(),
        forall|k: int| 0 <= k < i ==> is_ascii_ws(#[trigger] s[k]),
        i == s.len() || !is_ascii_ws(s[i]),
    ensures
        skip_ws(s) == s.skip(i),
    decreases i,
{
    if i == 0 {
        assert(s.skip(0) =~= s);
    } else {
        assert(is_ascii_ws(s[0]));
        let rest = s.drop_first();
        lemma_skip_ws_at(rest, i - 1);
        assert(rest.skip(i - 1) =~= s.skip(i));
    }
}

proof fn lemma_take_word_at(s: Seq<char>, i: int, j: int)
    requires
        0 <= i <= j <= s.len(),
        forall|k: int| i <= k < j ==> !is_ascii_ws(#[trigger] s[k]),
        j == s.len() || is_ascii_ws(s[j]),
    ensures
        take_word(s.skip(i)) == s.subrange(i, j),
    decreases j - i,
{
    let t = s.skip(i);
    if i == j {
        assert(s.subrange(i, j) =~= Seq::<char>::empty());
        if i < s.len() {
            assert(t[0] == s[i]);
        }
    } else {
        assert(t[0] == s[i]);
        assert(!is_ascii_ws(t[0]));
        assert(t.drop_first() =~= s.skip(i + 1));
        lemma_take_word_at(s, i + 1, j);
        assert(seq![s[i]] + s.subrange(i + 1, j) =~= s.subrange(i, j));
    }
}

proof fn lemma_strip_slashes_at(s: Seq<char>, i: int)
    requires
        0 <= i <= s.len(),
        forall|k: int| 0 <= k < i ==> #[trigger] s[k] == '/',
        i == s.len() || s[i] != '/',
    ensures
        strip_slashes(s) == s.skip(i),
    decreases i,
{
    if i == 0 {
        assert(s.skip(0) =~= s);
    } else {
        assert(s[0] == '/');
        let rest = s.drop_first();
        lemma_strip_slashes_at(rest, i - 1);
        assert(rest.skip(i - 1) =~= s.skip(i));
    }
}

/// Only a slash lower-cases to a slash.
proof fn lemma_lower_char_slash(c: char)
    ensures
        (lower_char(c) == '/') == (c == '/'),
{
    if 'A' <= c && c <= 'Z' {
        assert((c as u32) + 32 != 47);
    }
}

/// Whether `c` is ASCII whitespace; see `is_ascii_ws`.
fn is_ws_exec(c: char) -> (r: bool)
    ensures
        r == is_ascii_ws(c),
{
    match c {
        ' ' | '\t' | '\n' | '\r' | '\u{c}' => true,
        _ => false,
    }
}

/// ASCII lower case of one character; see `lower_char`.
fn lower_char_exec(c: char) -> (r: char)
    ensures
        r == lower_char(c),
{
    match c {
        'A' => 'a',
        'B' => 'b',
        'C' => 'c',
        'D' => 'd',
        'E' => 'e',
        'F' => 'f',
        'G' => 'g',
        'H' => 'h',
        'I' => 'i',
        'J' => 'j',
        'K' => 'k',
        'L' => 'l',
        'M' => 'm',
        'N' => 'n',
        'O' => 'o',
        'P' => 'p',
        'Q' => 'q',
        'R' => 'r',
        'S' => 's',
        'T' => 't',
        'U' => 'u',
        'V' => 'v',
        'W' => 'w',
        'X' => 'x',
        'Y' => 'y',
        'Z' => 'z',
        _ => c,
    }
}

/// The bounds of the first whitespace-delimited word of `s`.
fn word_bounds(s: &str) -> (r: (usize, usize))
    ensures
        r.0 <= r.1 <= s@.len(),
        first_word(s@) == s@.subrange(r.0 as int, r.1 as int),
{
    let n = s.unicode_len();
    let mut a: usize = 0;
    while a < n && is_ws_exec(s.get_char(a))
        invariant
            n == s@.len(),
            a <= n,
            forall|k: int| 0 <= k < a ==> is_ascii_ws(#[trigger] s@[k]),
        decreases n - a,
    {
        a += 1;
    }
    let mut b = a;
    while b < n && !is_ws_exec(s.get_char(b))
        invariant
            n == s@.len(),
            a <= b <= n,
            forall|k: int| a <= k < b ==> !is_ascii_ws(#[trigger] s@[k]),
        decreases n - b,
    {
        b += 1;
    }
    proof {
        lemma_skip_ws_at(s@, a as int);
        lemma_take_word_at(s@, a as int, b as int);
    }
    (a, b)
}

/// Whether the normalized command token of `s` reads exactly `keyword`.
pub fn command_is(s: &str, keyword: &str) -> (r: bool)
    ensures
        r == (spec_core_token(s@) == keyword@),
{
    let (a, b) = word_bounds(s);
    let ghost w = s@.subrange(a as int, b as int);
    let mut c = a;
    while c < b && s.get_char(c) == '/'
        invariant
            a <= c <= b <= s@.len(),
            w == s@.subrange(a as int, b as int),
            first_word(s@) == w,
            forall|k: int| a <= k < c ==> #[trigger] s@[k] == '/',
        decreases b - c,
    {
        c += 1;
    }
    let ghost core = spec_core_token(s@);
    proof {
        let lw = lower_seq(w);
        assert forall|k: int| 0 <= k < c - a implies #[trigger] lw[k] == '/' by {
            assert(w[k] == s@[a + k]);
            assert(s@[a + k] == '/');
            lemma_lower_char_slash(w[k]);
        }
        if c < b {
            assert(w[c - a] == s@[c as int]);
            lemma_lower_char_slash(w[c - a]);
            assert(lw[c - a] != '/');
        }
        lemma_strip_slashes_at(lw, c - a);
        assert(core =~= lower_seq(s@.subrange(c as int, b as int))) by {
            assert(core == lw.skip(c - a));
            assert(lw.skip(c - a) =~= lower_seq(s@.subrange(c as int, b as int)));
        }
        assert(core.len() == b - c);
    }
    let m = keyword.unicode_len();
    if b - c != m {
        return false;
    }
    let mut k: usize = 0;
    while k < m
        invariant
            c <= b <= s@.len(),
            core == spec_core_token(s@),
            core == lower_seq(s@.subrange(c as int, b as int)),
            core.len() == b - c,
            m == keyword@.len(),
            b - c == m,
            k <= m,
            forall|t: int| 0 <= t < k ==> core[t] == keyword@[t],
        decreases m - k,
    {
        assert(core[k as int] == lower_char(s@.subrange(c as int, b as int)[k as int]));
        assert(s@.subrange(c as int, b as int)[k as int] == s@[c + k]);
        if lower_char_exec(s.get_char(c + k)) != keyword.get_char(k) {
            assert(core[k as int] != keyword@[k as int]);
            return false;
        }
        k += 1;
    }
    proof {
        assert(core =~= keyword@);
    }
    true
}

/// One parsed inbound request.
pub enum Request {
    Help,
    Check,
    UnknownRequest(String),
}

impl Request {
    /// Parses free text: the first word, lower-cased and with leading
    /// slashes removed, picks the request; anything else echoes the
    /// whole text back as unrecognized.
    pub fn new(command: &str) -> (r: Request)
        ensures
            ({
                let t = spec_core_token(command@);
                &&& t == "help"@ ==> r is Help
                &&& t != "help"@ && t == "check"@ ==> r is Check
                &&& t != "help"@ && t != "check"@ ==> (r matches Request::UnknownRequest(c) && c@
                    == command@)
            }),
    {
        if command_is(command, "help") {
            Request::Help
        } else if command_is(command, "check") {
            Request::Check
        } else {
            Request::UnknownRequest(String::from_str(command))
        }
    }
}

/// The help text, listing the supported commands.
pub open spec fn spec_help_text() -> Seq<char> {
    "This is a simple bot for sbis build/deploy progress notification. List of supported commands:\n\t/help: prints help message.\n\t/subscribe: sends a notification when the build/deploy process completes.\n\t"@
}

/// The help text; see `spec_help_text`.
pub fn get_string_help() -> (r: String)
    ensures
        r@ == spec_help_text(),
{
    String::from_str(
        "This is a simple bot for sbis build/deploy progress notification. List of supported commands:\n\t/help: prints help message.\n\t/subscribe: sends a notification when the build/deploy process completes.\n\t",
    )
}

} // verus!
