//! The warp state shared between the front end and the shim: the state
//! file's text, the switches passed through the environment, the state
//! file's name and the preload variable.
use vstd::prelude::*;

use crate::text::{
    chars_of, is_space, is_space_char, leading_space, numeral_value, parse_i128_at, push_decimal,
    string_between, string_from_chars, trim, trim_bounds, decimal, push_all, signed_decimal,
    push_signed_decimal, lemma_signed_decimal_reads_back, all_space,
};

verus! {

/// Number of non-whitespace characters at the start of `s`.
pub open spec fn word_length(s: Seq<char>) -> nat
    decreases s.len(),
{
    if s.len() > 0 && !is_space(s[0]) {
        1 + word_length(s.drop_first())
    } else {
        0
    }
}

pub proof fn lemma_word_length_bound(s: Seq<char>)
    ensures
        word_length(s) <= s.len(),
    decreases s.len(),
{
    if s.len() > 0 && !is_space(s[0]) {
        lemma_word_length_bound(s.drop_first());
    }
}

pub proof fn lemma_leading_space_bound(s: Seq<char>)
    ensures
        leading_space(s) <= s.len(),
        leading_space(s) < s.len() ==> !is_space(s[leading_space(s) as int]),
    decreases s.len(),
{
    if s.len() > 0 && is_space(s[0]) {
        let t = s.drop_first();
        lemma_leading_space_bound(t);
        if leading_space(t) < t.len() {
            assert(t[leading_space(t) as int] == s[leading_space(s) as int]);
        }
    }
}

/// The whitespace-separated words of `s`, as `str::split_whitespace`
/// yields them.
pub open spec fn words(s: Seq<char>) -> Seq<Seq<char>>
    decreases s.len(),
{
    let t = s.skip(leading_space(s) as int);
    if t.len() == 0 {
        Seq::empty()
    } else {
        let k = word_length(t);
        proof {
            lemma_leading_space_bound(s);
            lemma_word_length_bound(t);
            assert(t[0] == s[leading_space(s) as int]);
            assert(k >= 1);
        }
        seq![t.take(k as int)] + words(t.skip(k as int))
    }
}

/// A value given to one of the `TW_*` switches turns it on.
pub open spec fn switch_on(value: Seq<char>) -> bool {
    value == "1"@ || value == "true"@ || value == "TRUE"@ || value == "yes"@ || value == "YES"@
}

/// The offset the state file holds: its first word read as a 128-bit
/// integer.
pub open spec fn state_offset(text: Seq<char>) -> Option<int> {
    if words(text).len() > 0 {
        match numeral_value(words(text)[0]) {
            Some(x) => if i128::MIN <= x <= i128::MAX {
                Some(x)
            } else {
                None
            },
            None => None,
        }
    } else {
        None
    }
}

/// The speed the state file holds, as text: its second word.
pub open spec fn state_speed_word(text: Seq<char>) -> Option<Seq<char>> {
    if words(text).len() > 1 {
        Some(words(text)[1])
    } else {
        None
    }
}

/// The state file's contents, split into what the shim reads from them.
pub struct StateText {
    /// The virtual clock's offset in nanoseconds, when the first word is an
    /// integer.
    pub offset_ns: Option<i128>,
    /// The second word, which holds the speed factor.
    pub speed: Option<String>,
}

fn same_chars(a: &Vec<char>, b: &Vec<char>) -> (r: bool)
    ensures
        r == (a@ == b@),
{
    if a.len() != b.len() {
        return false;
    }
    let mut k: usize = 0;
    while k < a.len()
        invariant
            a.len() == b.len(),
            k <= a.len(),
            forall|j: int| 0 <= j < k ==> a@[j] == b@[j],
        decreases a.len() - k,
    {
        if a[k] != b[k] {
            return false;
        }
        k = k + 1;
    }
    assert(a@ =~= b@);
    true
}

impl StateText {
    /// The offset to warp by: the state file's, or none at all when the
    /// file holds no integer offset.
    pub fn offset_or_zero(&self) -> (r: i128)
        ensures
            r == match self.offset_ns {
                Some(x) => x,
                None => 0,
            },
    {
        match self.offset_ns {
            Some(x) => x,
            None => 0,
        }
    }
}

/// Whether the value of a `TW_*` switch turns it on.
pub fn switch_enabled(value: &str) -> (b: bool)
    ensures
        b == switch_on(value@),
{
    let v = chars_of(value);
    same_chars(&v, &chars_of("1")) || same_chars(&v, &chars_of("true")) || same_chars(
        &v,
        &chars_of("TRUE"),
    ) || same_chars(&v, &chars_of("yes")) || same_chars(&v, &chars_of("YES"))
}

proof fn lemma_word_length_scan(s: Seq<char>, i: int)
    requires
        0 <= i <= s.len(),
        forall|k: int| 0 <= k < i ==> !#[trigger] is_space(s[k]),
        i == s.len() || is_space(s[i]),
    ensures
        word_length(s) == i,
    decreases i,
{
    if i > 0 {
        let t = s.drop_first();
        assert forall|k: int| 0 <= k < i - 1 implies !#[trigger] is_space(t[k]) by {
            assert(t[k] == s[k + 1]);
        }
        if i < s.len() {
            assert(t[i - 1] == s[i]);
        }
        lemma_word_length_scan(t, i - 1);
        assert(!is_space(s[0]));
    }
}

/// The bounds `[a, b)` of the first word of `v[from..]`; `a == v.len()`
/// when there is none.
fn next_word(v: &Vec<char>, from: usize) -> (r: (usize, usize))
    requires
        from <= v.len(),
    ensures
        from <= r.0 <= r.1 <= v.len(),
        words(v@.skip(from as int)) == if r.0 == v.len() {
            Seq::<Seq<char>>::empty()
        } else {
            seq![v@.subrange(r.0 as int, r.1 as int)] + words(v@.skip(r.1 as int))
        },
        r.0 < v.len() ==> r.0 < r.1,
{
    let n = v.len();
    let ghost s = v@.skip(from as int);
    let mut a = from;
    while a < n && is_space_char(v[a])
        invariant
            from <= a <= n == v.len(),
            forall|k: int| from <= k < a ==> #[trigger] is_space(v@[k]),
        decreases n - a,
    {
        a = a + 1;
    }
    proof {
        assert forall|k: int| 0 <= k < a - from implies #[trigger] is_space(s[k]) by {
            assert(s[k] == v@[from + k]);
        }
        if a < n {
            assert(s[a - from] == v@[a as int]);
        }
        crate::text::lemma_leading_space_scan(s, a - from);
        assert(s.skip(a - from) =~= v@.skip(a as int));
    }
    let mut b = a;
    while b < n && !is_space_char(v[b])
        invariant
            a <= b <= n == v.len(),
            forall|k: int| a <= k < b ==> !#[trigger] is_space(v@[k]),
        decreases n - b,
    {
        b = b + 1;
    }
    proof {
        let t = v@.skip(a as int);
        assert forall|k: int| 0 <= k < b - a implies !#[trigger] is_space(t[k]) by {
            assert(t[k] == v@[a + k]);
        }
        if b < n {
            assert(t[b - a] == v@[b as int]);
        }
        lemma_word_length_scan(t, b - a);
        assert(t.take(b - a) =~= v@.subrange(a as int, b as int));
        assert(t.skip(b - a) =~= v@.skip(b as int));
        if a < n {
            assert(t[0] == v@[a as int]);
        }
    }
    (a, b)
}

/// Splits the state file's text into the offset and the speed word.
pub fn parse_state_text(text: &str) -> (r: StateText)
    ensures
        r.offset_ns matches Some(x) ==> state_offset(text@) == Some(x as int),
        r.offset_ns is None ==> state_offset(text@) is None,
        r.speed matches Some(w) ==> state_speed_word(text@) == Some(w@),
        r.speed is None ==> state_speed_word(text@) is None,
{
    let v = chars_of(text);
    let n = v.len();
    assert(v@.skip(0) =~= v@);
    let (a0, b0) = next_word(&v, 0);
    if a0 == n {
        return StateText { offset_ns: None, speed: None };
    }
    let offset_ns = parse_i128_at(&v, a0, b0);
    let (a1, b1) = next_word(&v, b0);
    let speed = if a1 == n {
        None
    } else {
        Some(string_between(&v, a1, b1))
    };
    StateText { offset_ns, speed }
}

/// The preload list given to the child: the shim first, then whatever the
/// list held before, unless that was blank.
pub open spec fn merged_preload(shim: Seq<char>, previous: Option<Seq<char>>) -> Seq<char> {
    match previous {
        Some(p) => if trim(p).len() > 0 {
            shim + seq![':'] + p
        } else {
            shim
        },
        None => shim,
    }
}

/// The preload list keeps a previous list whole, after the shim and a
/// colon, unless that list is blank (all whitespace), when the shim stands
/// alone.
pub proof fn lemma_preload_kept(shim: Seq<char>, previous: Seq<char>)
    ensures
        !all_space(previous) ==> merged_preload(shim, Some(previous)) == shim + seq![':']
            + previous,
        all_space(previous) ==> merged_preload(shim, Some(previous)) == shim,
        merged_preload(shim, None) == shim,
        merged_preload(shim, Some(previous)).take(shim.len() as int) == shim,
{
    crate::text::lemma_trim_shape(previous);
    if all_space(previous) {
        crate::text::lemma_trim_all_space(previous);
    }
    assert((shim + seq![':'] + previous).take(shim.len() as int) =~= shim);
    assert(shim.take(shim.len() as int) =~= shim);
}

/// Puts the shim in front of an existing preload list.
pub fn merge_preload(shim: &str, previous: Option<&str>) -> (r: String)
    ensures
        r@ == merged_preload(
            shim@,
            match previous {
                Some(p) => Some(p@),
                None => None,
            },
        ),
        previous matches Some(p) ==> (!all_space(p@) ==> r@ == shim@ + seq![':'] + p@),
        previous matches Some(p) ==> (all_space(p@) ==> r@ == shim@),
        previous is None ==> r@ == shim@,
{
    proof {
        if let Some(p) = previous {
            lemma_preload_kept(shim@, p@);
        }
    }
    let mut out = chars_of(shim);
    match previous {
        Some(p) => {
            let pv = chars_of(p);
            let (a, b) = trim_bounds(&pv);
            if a < b {
                out.push(':');
                let mut k: usize = 0;
                let ghost base = out@;
                while k < pv.len()
                    invariant
                        k <= pv.len(),
                        out@ == base + pv@.take(k as int),
                    decreases pv.len() - k,
                {
                    out.push(pv[k]);
                    k = k + 1;
                    assert(out@ =~= base + pv@.take(k as int));
                }
                assert(pv@.take(pv.len() as int) =~= pv@);
            }
        },
        None => {},
    }
    string_from_chars(&out)
}

/// Name of the state file for a process id and a moment in nanoseconds.
pub open spec fn state_file_name_text(pid: nat, nanos: nat) -> Seq<char> {
    "timewarp-"@ + decimal(pid) + "-"@ + decimal(nanos) + ".state"@
}

/// `timewarp-<pid>-<nanos>.state`.
pub fn state_file_name(pid: u32, nanos: u128) -> (r: String)
    ensures
        r@ == state_file_name_text(pid as nat, nanos as nat),
{
    let mut out: Vec<char> = Vec::new();
    push_all(&mut out, "timewarp-");
    push_decimal(&mut out, pid as u128);
    push_all(&mut out, "-");
    push_decimal(&mut out, nanos);
    push_all(&mut out, ".state");
    assert(out@ =~= state_file_name_text(pid as nat, nanos as nat));
    string_from_chars(&out)
}

/// The state file's text for an offset and the text of a speed factor.
pub open spec fn state_file_contents(offset: int, speed: Seq<char>) -> Seq<char> {
    signed_decimal(offset) + seq![' '] + speed + seq!['\n']
}

/// Writes the state file's text: the offset in nanoseconds, a space, the
/// speed factor as given, and a line feed.
pub fn state_file_text(offset_ns: i128, speed: &str) -> (r: String)
    ensures
        r@ == state_file_contents(offset_ns as int, speed@),
{
    let mut out: Vec<char> = Vec::new();
    push_signed_decimal(&mut out, offset_ns);
    out.push(' ');
    push_all(&mut out, speed);
    out.push('\n');
    assert(out@ =~= state_file_contents(offset_ns as int, speed@));
    string_from_chars(&out)
}

/// A word: non-empty and free of whitespace.
pub open spec fn is_word(w: Seq<char>) -> bool {
    w.len() > 0 && forall|i: int| 0 <= i < w.len() ==> !#[trigger] is_space(w[i])
}

proof fn lemma_words_of_word_then(w: Seq<char>, rest: Seq<char>)
    requires
        is_word(w),
        rest.len() == 0 || is_space(rest[0]),
    ensures
        words(w + rest) == seq![w] + words(rest),
{
    let s = w + rest;
    assert(!is_space(s[0]));
    crate::text::lemma_leading_space_scan(s, 0);
    assert(s.skip(0) =~= s);
    assert forall|k: int| 0 <= k < w.len() implies !#[trigger] is_space(s[k]) by {
        assert(s[k] == w[k]);
    }
    if rest.len() > 0 {
        assert(s[w.len() as int] == rest[0]);
    }
    lemma_word_length_scan(s, w.len() as int);
    assert(s.take(w.len() as int) =~= w);
    assert(s.skip(w.len() as int) =~= rest);
}

proof fn lemma_words_after_space(sp: char, rest: Seq<char>)
    requires
        is_space(sp),
    ensures
        words(seq![sp] + rest) == words(rest),
{
    let s = seq![sp] + rest;
    assert(s[0] == sp);
    assert(s.drop_first() =~= rest);
    assert(leading_space(s) == 1 + leading_space(rest));
    lemma_leading_space_bound(rest);
    assert(s.skip(leading_space(s) as int) =~= rest.skip(leading_space(rest) as int));
}

proof fn lemma_signed_decimal_word(x: int)
    ensures
        is_word(signed_decimal(x)),
        numeral_value(signed_decimal(x)) == Some(x),
{
    lemma_signed_decimal_reads_back(x);
}

/// What the front end writes to the state file, the shim reads back: the
/// same offset, and the speed text when it is a single word.
pub proof fn lemma_state_file_reads_back(offset: i128, speed: Seq<char>)
    requires
        is_word(speed),
    ensures
        state_offset(state_file_contents(offset as int, speed)) == Some(offset as int),
        state_speed_word(state_file_contents(offset as int, speed)) == Some(speed),
{
    let o = signed_decimal(offset as int);
    lemma_signed_decimal_word(offset as int);
    let nl = seq!['\n'];
    assert(is_space('\n'));
    assert(is_space(' '));
    // the last line feed ends the words
    lemma_words_after_space('\n', Seq::<char>::empty());
    assert(seq!['\n'] + Seq::<char>::empty() =~= nl);
    assert(Seq::<char>::empty().skip(0) =~= Seq::<char>::empty());
    assert(words(Seq::<char>::empty()) =~= Seq::<Seq<char>>::empty());
    lemma_words_of_word_then(speed, nl);
    lemma_words_after_space(' ', speed + nl);
    lemma_words_of_word_then(o, seq![' '] + (speed + nl));
    let text = state_file_contents(offset as int, speed);
    assert(text =~= o + (seq![' '] + (speed + nl)));
    assert(words(text) =~= seq![o, speed]);
}

} // verus!
