//! The text of a `cargo tree` listing: its lines, and what each line says.

use vstd::prelude::*;

verus! {

pub open spec fn is_digit(c: char) -> bool {
    48 <= c as u32 && c as u32 <= 57
}

pub open spec fn is_letter(c: char) -> bool {
    (65 <= c as u32 && c as u32 <= 90) || (97 <= c as u32 && c as u32 <= 122)
}

/// `l` without one trailing carriage return.
pub open spec fn strip_cr(l: Seq<char>) -> Seq<char> {
    if l.len() > 0 && l.last() == '\r' {
        l.drop_last()
    } else {
        l
    }
}

/// The lines of `t` from position `i` on, the current one starting at `start`.
pub open spec fn lines_scan(t: Seq<char>, start: nat, i: nat) -> Seq<Seq<char>>
    decreases t.len() - i,
{
    if i >= t.len() {
        if start < t.len() {
            seq![strip_cr(t.subrange(start as int, t.len() as int))]
        } else {
            seq![]
        }
    } else if t[i as int] == '\n' {
        seq![strip_cr(t.subrange(start as int, i as int))] + lines_scan(t, i + 1, i + 1)
    } else {
        lines_scan(t, start, i + 1)
    }
}

/// The lines of `t`: split at each newline, a final newline ending the last
/// line rather than starting an empty one, a carriage return before a newline
/// dropped.
pub open spec fn lines_of(t: Seq<char>) -> Seq<Seq<char>> {
    lines_scan(t, 0, 0)
}

/// The position of the first non-digit of `l` at or after `i`.
pub open spec fn lead_digits(l: Seq<char>, i: nat) -> nat
    decreases l.len() - i,
{
    if i < l.len() && is_digit(l[i as int]) {
        lead_digits(l, i + 1)
    } else {
        i
    }
}

/// The number that the decimal digits `d` write.
pub open spec fn decimal(d: Seq<char>) -> nat
    decreases d.len(),
{
    if d.len() == 0 {
        0
    } else {
        decimal(d.drop_last()) * 10 + (d.last() as u32 - 48) as nat
    }
}

pub open spec fn ends_with(s: Seq<char>, p: Seq<char>) -> bool {
    s.len() >= p.len() && s.subrange(s.len() - p.len(), s.len() as int) == p
}

/// The mark of a repeated entry, with the space before it.
pub open spec fn repeat_mark() -> Seq<char> {
    seq![' ', '(', '*', ')']
}

/// `s` without its trailing repeat marks.
pub open spec fn strip_marks(s: Seq<char>) -> Seq<char>
    decreases s.len(),
{
    if ends_with(s, repeat_mark()) {
        strip_marks(s.subrange(0, s.len() - 4))
    } else {
        s
    }
}

/// The first position at or after `i` where `p` occurs in `s`.
pub open spec fn find_from(s: Seq<char>, p: Seq<char>, i: nat) -> Option<nat>
    decreases s.len() - i,
{
    if i >= s.len() || i + p.len() > s.len() {
        None
    } else if s.subrange(i as int, (i + p.len()) as int) == p {
        Some(i)
    } else {
        find_from(s, p, i + 1)
    }
}

/// What separates a crate's short name from the feature it names.
pub open spec fn feature_tag() -> Seq<char> {
    seq![' ', 'f', 'e', 'a', 't', 'u', 'r', 'e', ' ', '"']
}

/// The nesting depth that a line's leading digits write.
pub open spec fn line_depth(l: Seq<char>) -> nat {
    decimal(l.subrange(0, lead_digits(l, 0) as int))
}

/// A line after its depth.
pub open spec fn line_rest(l: Seq<char>) -> Seq<char> {
    l.subrange(lead_digits(l, 0) as int, l.len() as int)
}

/// The entry of a line: its text after the depth, without repeat marks.
#[verifier::opaque]
pub open spec fn line_lib(l: Seq<char>) -> Seq<char> {
    strip_marks(line_rest(l))
}

/// Whether a line repeats an entry expanded earlier.
pub open spec fn line_repeats(l: Seq<char>) -> bool {
    ends_with(line_rest(l), seq!['(', '*', ')'])
}

/// The feature a feature line names, between its quotes.
pub open spec fn line_feature(l: Seq<char>) -> Option<Seq<char>> {
    let lib = line_lib(l);
    match find_from(lib, feature_tag(), 0) {
        Some(fi) => Some(lib.subrange((fi + 10) as int, lib.len() - 1)),
        None => None,
    }
}

/// A well-formed line: a depth of decimal digits that fits a `usize`, then a
/// letter; a feature line closes its quotes, a crate line has a space between
/// its short name and the rest.
#[verifier::opaque]
pub open spec fn line_ok(l: Seq<char>) -> bool {
    let k = lead_digits(l, 0);
    let lib = line_lib(l);
    &&& k >= 1
    &&& k < l.len()
    &&& is_letter(l[k as int])
    &&& line_depth(l) <= usize::MAX
    &&& match find_from(lib, feature_tag(), 0) {
        Some(fi) => fi + 11 <= lib.len(),
        None => find_from(lib, seq![' '], 0) is Some,
    }
}

/// Whether a line lists a crate (rather than a feature).
#[verifier::opaque]
pub open spec fn is_crate_line(l: Seq<char>) -> bool {
    find_from(line_lib(l), feature_tag(), 0) is None
}

/// The short name of an entry: up to its first space.
pub open spec fn short_of(lib: Seq<char>) -> Seq<char> {
    match find_from(lib, seq![' '], 0) {
        Some(sp) => lib.subrange(0, sp as int),
        None => lib,
    }
}

/// The rest of an entry after its first space.
pub open spec fn extra_of(lib: Seq<char>) -> Seq<char> {
    match find_from(lib, seq![' '], 0) {
        Some(sp) => lib.subrange((sp + 1) as int, lib.len() as int),
        None => Seq::empty(),
    }
}

/// `s` with each hyphen written as an underscore, as compiled crates are named.
pub open spec fn underscored(s: Seq<char>) -> Seq<char> {
    s.map_values(|c: char| if c == '-' { '_' } else { c })
}

/// The full name of a crate entry: its short name underscored, a space, and
/// the rest.
#[verifier::opaque]
pub open spec fn full_name(lib: Seq<char>) -> Seq<char> {
    underscored(short_of(lib)) + seq![' '] + extra_of(lib)
}

/// The characters of `s`.
pub fn chars_of(s: &str) -> (r: Vec<char>)
    ensures
        r@ == s@,
{
    let mut r: Vec<char> = Vec::new();
    for c in it: s.chars()
        invariant
            it.seq() == s@,
            r@ == it.seq().subrange(0, it.index() as int),
    {
        r.push(c);
    }
    r
}

/// The characters of `s` from `a` to `b`.
pub fn slice_of(s: &Vec<char>, a: usize, b: usize) -> (r: Vec<char>)
    requires
        a <= b <= s@.len(),
    ensures
        r@ == s@.subrange(a as int, b as int),
{
    let mut r: Vec<char> = Vec::new();
    let mut i = a;
    while i < b
        invariant
            a <= i <= b,
            b <= s@.len(),
            r@ == s@.subrange(a as int, i as int),
        decreases b - i,
    {
        r.push(s[i]);
        i = i + 1;
        proof {
            assert(r@ =~= s@.subrange(a as int, i as int));
        }
    }
    r
}

/// The lines of `t`.
pub fn split_lines(t: &Vec<char>) -> (r: Vec<Vec<char>>)
    ensures
        r@.map_values(|l: Vec<char>| l@) == lines_of(t@),
{
    let mut r: Vec<Vec<char>> = Vec::new();
    let mut start: usize = 0;
    let mut i: usize = 0;
    while i < t.len()
        invariant
            start <= i <= t@.len(),
            lines_of(t@) == r@.map_values(|l: Vec<char>| l@) + lines_scan(t@, start as nat, i as nat),
        decreases t.len() - i,
    {
        if t[i] == '\n' {
            let mut end = i;
            if end > start && t[end - 1] == '\r' {
                end = end - 1;
            }
            let line = slice_of(t, start, end);
            proof {
                assert(line@ == strip_cr(t@.subrange(start as int, i as int)));
            }
            let ghost before = r@;
            r.push(line);
            proof {
                assert(r@.map_values(|l: Vec<char>| l@) =~= before.map_values(|l: Vec<char>| l@) + seq![line@]);
            }
            start = i + 1;
        }
        i = i + 1;
    }
    if start < t.len() {
        let mut end = t.len();
        if t[end - 1] == '\r' {
            end = end - 1;
        }
        let line = slice_of(t, start, end);
        proof {
            assert(line@ == strip_cr(t@.subrange(start as int, t@.len() as int)));
        }
        let ghost before = r@;
        r.push(line);
        proof {
            assert(r@.map_values(|l: Vec<char>| l@) =~= before.map_values(|l: Vec<char>| l@) + seq![line@]);
        }
    }
    proof {
        assert(r@.map_values(|l: Vec<char>| l@) =~= r@.map_values(|l: Vec<char>| l@) + Seq::<Seq<char>>::empty());
    }
    r
}

/// A longer run of digits writes a number no smaller.
proof fn lemma_decimal_mono(d: Seq<char>, i: nat, j: nat)
    requires
        i <= j <= d.len(),
    ensures
        decimal(d.subrange(0, i as int)) <= decimal(d.subrange(0, j as int)),
    decreases j - i,
{
    if i < j {
        lemma_decimal_mono(d, i, (j - 1) as nat);
        assert(d.subrange(0, j as int).drop_last() =~= d.subrange(0, j - 1));
    }
}

/// Where `p` occurs at `j`, a search from `i <= j` finds it there or earlier.
proof fn lemma_find_some(s: Seq<char>, p: Seq<char>, i: nat, j: nat)
    requires
        i <= j,
        j + p.len() <= s.len(),
        j < s.len(),
        s.subrange(j as int, (j + p.len()) as int) == p,
    ensures
        find_from(s, p, i) is Some,
        find_from(s, p, i)->0 <= j,
        find_from(s, p, i)->0 >= i,
    decreases j - i,
{
    if i < j && s.subrange(i as int, (i + p.len()) as int) != p {
        lemma_find_some(s, p, i + 1, j);
    }
}

/// What a search finds is there.
proof fn lemma_find_found(s: Seq<char>, p: Seq<char>, i: nat)
    requires
        find_from(s, p, i) is Some,
    ensures
        find_from(s, p, i)->0 >= i,
        find_from(s, p, i)->0 + p.len() <= s.len(),
        s.subrange(find_from(s, p, i)->0 as int, (find_from(s, p, i)->0 + p.len()) as int) == p,
    decreases s.len() - i,
{
    if !(i >= s.len() || i + p.len() > s.len()) && s.subrange(i as int, (i + p.len()) as int) != p {
        lemma_find_found(s, p, i + 1);
    }
}

/// What a well-formed line says.
pub struct LineInfo {
    pub depth: usize,
    pub lib: Vec<char>,
    pub repeats: bool,
    pub feat: Option<Vec<char>>,
    pub space: usize,
}

fn chars2(a: char, b: char) -> (r: Vec<char>)
    ensures
        r@ == seq![a, b],
{
    let mut r = Vec::new();
    r.push(a);
    r.push(b);
    proof {
        assert(r@ =~= seq![a, b]);
    }
    r
}

fn repeat_mark_chars() -> (r: Vec<char>)
    ensures
        r@ == repeat_mark(),
{
    let mut r = Vec::new();
    r.push(' ');
    r.push('(');
    r.push('*');
    r.push(')');
    proof {
        assert(r@ =~= repeat_mark());
    }
    r
}

fn feature_tag_chars() -> (r: Vec<char>)
    ensures
        r@ == feature_tag(),
{
    let mut r = Vec::new();
    r.push(' ');
    r.push('f');
    r.push('e');
    r.push('a');
    r.push('t');
    r.push('u');
    r.push('r');
    r.push('e');
    r.push(' ');
    r.push('"');
    proof {
        assert(r@ =~= feature_tag());
    }
    r
}

fn lead_digits_of(l: &Vec<char>) -> (r: usize)
    ensures
        r == lead_digits(l@, 0),
        r <= l@.len(),
        forall|i: int| 0 <= i < r ==> is_digit(#[trigger] l@[i]),
{
    let mut i: usize = 0;
    while i < l.len() && (l[i] as u32) >= 48 && (l[i] as u32) <= 57
        invariant
            i <= l@.len(),
            lead_digits(l@, 0) == lead_digits(l@, i as nat),
            forall|k: int| 0 <= k < i ==> is_digit(#[trigger] l@[k]),
        decreases l.len() - i,
    {
        i = i + 1;
    }
    i
}

fn decimal_of(l: &Vec<char>, k: usize) -> (r: Option<usize>)
    requires
        k <= l@.len(),
        forall|i: int| 0 <= i < k ==> is_digit(#[trigger] l@[i]),
    ensures
        match r {
            Some(v) => v == decimal(l@.subrange(0, k as int)),
            None => decimal(l@.subrange(0, k as int)) > usize::MAX,
        },
{
    let mut v: usize = 0;
    let mut i: usize = 0;
    proof {
        assert(l@.subrange(0, 0) =~= Seq::<char>::empty());
    }
    while i < k
        invariant
            i <= k <= l@.len(),
            forall|j: int| 0 <= j < k ==> is_digit(#[trigger] l@[j]),
            v == decimal(l@.subrange(0, i as int)),
        decreases k - i,
    {
        proof {
            assert(l@.subrange(0, i + 1).drop_last() =~= l@.subrange(0, i as int));
            assert(is_digit(l@[i as int]));
        }
        let d = (l[i] as u32 - 48) as usize;
        match v.checked_mul(10) {
            Some(w) => match w.checked_add(d) {
                Some(x) => {
                    v = x;
                },
                None => {
                    proof {
                        lemma_decimal_mono(l@, (i + 1) as nat, k as nat);
                    }
                    return None;
                },
            },
            None => {
                proof {
                    lemma_decimal_mono(l@, (i + 1) as nat, k as nat);
                }
                return None;
            },
        }
        i = i + 1;
    }
    Some(v)
}

fn ends_with_chars(s: &Vec<char>, p: &Vec<char>) -> (r: bool)
    ensures
        r == ends_with(s@, p@),
{
    if s.len() < p.len() {
        return false;
    }
    let off = s.len() - p.len();
    let mut i: usize = 0;
    while i < p.len()
        invariant
            off == s@.len() - p@.len(),
            off + p@.len() == s@.len(),
            s@.len() == s.len(),
            i <= p@.len(),
            forall|j: int| 0 <= j < i ==> s@[off + j] == p@[j],
        decreases p.len() - i,
    {
        if s[off + i] != p[i] {
            proof {
                assert(s@.subrange(off as int, s@.len() as int)[i as int] != p@[i as int]);
            }
            return false;
        }
        i = i + 1;
    }
    proof {
        assert(s@.subrange(off as int, s@.len() as int) =~= p@);
    }
    true
}

fn strip_marks_of(s: Vec<char>) -> (r: Vec<char>)
    ensures
        r@ == strip_marks(s@),
{
    let mark = repeat_mark_chars();
    let mut cur = s;
    while ends_with_chars(&cur, &mark)
        invariant
            mark@ == repeat_mark(),
            strip_marks(s@) == strip_marks(cur@),
        decreases cur@.len(),
    {
        let n = cur.len();
        cur = slice_of(&cur, 0, n - 4);
    }
    cur
}

fn find_chars(s: &Vec<char>, p: &Vec<char>) -> (r: Option<usize>)
    ensures
        match r {
            Some(i) => find_from(s@, p@, 0) == Some(i as nat),
            None => find_from(s@, p@, 0) is None,
        },
{
    let mut i: usize = 0;
    while i < s.len() && p.len() <= s.len() - i
        invariant
            i <= s@.len(),
            find_from(s@, p@, 0) == find_from(s@, p@, i as nat),
        decreases s.len() - i,
    {
        let mut j: usize = 0;
        let mut same = true;
        while j < p.len()
            invariant
                i + p@.len() <= s@.len(),
                s@.len() == s.len(),
                j <= p@.len(),
                same <==> forall|k: int| 0 <= k < j ==> s@[i + k] == p@[k],
            decreases p.len() - j,
        {
            if s[i + j] != p[j] {
                same = false;
            }
            j = j + 1;
        }
        if same {
            proof {
                assert(s@.subrange(i as int, (i + p@.len()) as int) =~= p@);
            }
            return Some(i);
        }
        proof {
            let k = choose|k: int| 0 <= k < p@.len() && s@[i + k] != p@[k];
            assert(s@.subrange(i as int, (i + p@.len()) as int)[k] != p@[k]);
        }
        i = i + 1;
    }
    None
}

/// What line `l` says, or `None` when it is not well formed.
pub fn read_line(l: &Vec<char>) -> (r: Option<LineInfo>)
    ensures
        r is Some <==> line_ok(l@),
        match r {
            Some(x) => {
                &&& x.depth == line_depth(l@)
                &&& x.lib@ == line_lib(l@)
                &&& x.repeats == line_repeats(l@)
                &&& (x.feat is None <==> is_crate_line(l@))
                &&& (forall|f: Vec<char>| x.feat == Some(f) ==> line_feature(l@) == Some(f@))
                &&& x.space < x.lib@.len()
                &&& find_from(x.lib@, seq![' '], 0) == Some(x.space as nat)
            },
            None => true,
        },
{
    reveal(line_ok);
    reveal(is_crate_line);
    reveal(line_lib);
    let k = lead_digits_of(l);
    if k == 0 || k >= l.len() {
        return None;
    }
    let c = l[k] as u32;
    if !((65 <= c && c <= 90) || (97 <= c && c <= 122)) {
        return None;
    }
    let depth = match decimal_of(l, k) {
        Some(d) => d,
        None => {
            return None;
        },
    };
    let rest = slice_of(l, k, l.len());
    let star = chars2('(', '*');
    let mut star3 = star;
    star3.push(')');
    proof {
        assert(star3@ =~= seq!['(', '*', ')']);
    }
    let repeats = ends_with_chars(&rest, &star3);
    let lib = strip_marks_of(rest);
    let tag = feature_tag_chars();
    let mut space_p: Vec<char> = Vec::new();
    space_p.push(' ');
    proof {
        assert(space_p@ =~= seq![' ']);
    }
    match find_chars(&lib, &tag) {
        Some(fi) => {
            if fi > lib.len() || lib.len() - fi < 11 {
                return None;
            }
            let feat = slice_of(&lib, fi + 10, lib.len() - 1);
            proof {
                lemma_find_found(lib@, feature_tag(), 0);
                assert(lib@.subrange(fi as int, (fi + 10) as int) == feature_tag());
                assert(lib@[fi as int] == feature_tag()[0]);
                assert(lib@.subrange(fi as int, (fi + 1) as int) =~= seq![' ']);
                lemma_find_some(lib@, seq![' '], 0, fi as nat);
            }
            let space = find_chars(&lib, &space_p).unwrap();
            Some(LineInfo { depth, lib, repeats, feat: Some(feat), space })
        },
        None => match find_chars(&lib, &space_p) {
            Some(sp) => {
                proof {
                    lemma_find_found(lib@, seq![' '], 0);
                }
                Some(LineInfo { depth, lib, repeats, feat: None, space: sp })
            },
            None => None,
        },
    }
}

/// Relies on `String::from_iter` over characters: the string of exactly
/// those characters, in order.
#[verifier::external_body]
pub(crate) fn string_of(cs: &Vec<char>) -> (r: String)
    ensures
        r@ == cs@,
{
    cs.iter().collect()
}

/// Whether `a` and `b` hold the same characters.
pub fn chars_eq(a: &Vec<char>, b: &Vec<char>) -> (r: bool)
    ensures
        r == (a@ == b@),
{
    if a.len() != b.len() {
        return false;
    }
    let mut i: usize = 0;
    while i < a.len()
        invariant
            a@.len() == b@.len(),
            i <= a@.len(),
            forall|k: int| 0 <= k < i ==> a@[k] == b@[k],
        decreases a.len() - i,
    {
        if a[i] != b[i] {
            return false;
        }
        i = i + 1;
    }
    proof {
        assert(a@ =~= b@);
    }
    true
}

/// `s` with each hyphen written as an underscore.
pub fn underscore_of(s: &Vec<char>) -> (r: Vec<char>)
    ensures
        r@ == underscored(s@),
{
    let mut r: Vec<char> = Vec::new();
    let mut i: usize = 0;
    while i < s.len()
        invariant
            i <= s@.len(),
            r@ == underscored(s@.subrange(0, i as int)),
        decreases s.len() - i,
    {
        let c = s[i];
        r.push(if c == '-' { '_' } else { c });
        i = i + 1;
        proof {
            assert(r@ =~= underscored(s@.subrange(0, i as int)));
        }
    }
    proof {
        assert(s@.subrange(0, s@.len() as int) =~= s@);
    }
    r
}

/// Whether `a` comes before `b` in lexicographic order of characters (the
/// order of their UTF-8 bytes, as `String`'s `Ord` has it).
pub open spec fn lex_less(a: Seq<char>, b: Seq<char>) -> bool
    decreases a.len(),
{
    if a.len() == 0 {
        b.len() > 0
    } else if b.len() == 0 {
        false
    } else if a[0] != b[0] {
        (a[0] as u32) < (b[0] as u32)
    } else {
        lex_less(a.drop_first(), b.drop_first())
    }
}

/// Whether `a` comes before `b` in lexicographic order of characters.
pub fn chars_less(a: &Vec<char>, b: &Vec<char>) -> (r: bool)
    ensures
        r == lex_less(a@, b@),
{
    let mut i: usize = 0;
    proof {
        assert(a@.subrange(0, a@.len() as int) =~= a@);
        assert(b@.subrange(0, b@.len() as int) =~= b@);
    }
    while i < a.len() && i < b.len() && a[i] == b[i]
        invariant
            i <= a@.len(),
            i <= b@.len(),
            lex_less(a@, b@) == lex_less(a@.subrange(i as int, a@.len() as int), b@.subrange(i as int, b@.len() as int)),
        decreases a.len() - i,
    {
        proof {
            let sa = a@.subrange(i as int, a@.len() as int);
            let sb = b@.subrange(i as int, b@.len() as int);
            assert(sa.drop_first() =~= a@.subrange(i + 1, a@.len() as int));
            assert(sb.drop_first() =~= b@.subrange(i + 1, b@.len() as int));
        }
        i = i + 1;
    }
    let ghost sa = a@.subrange(i as int, a@.len() as int);
    let ghost sb = b@.subrange(i as int, b@.len() as int);
    if i == a.len() {
        i < b.len()
    } else if i == b.len() {
        false
    } else {
        proof {
            assert(sa[0] == a@[i as int] && sb[0] == b@[i as int]);
        }
        (a[i] as u32) < (b[i] as u32)
    }
}

/// The short name of a crate entry and the rest after its first space.
pub fn split_entry(lib: &Vec<char>) -> (r: (Vec<char>, Vec<char>))
    ensures
        r.0@ == short_of(lib@),
        r.1@ == extra_of(lib@),
{
    let mut space_p: Vec<char> = Vec::new();
    space_p.push(' ');
    proof {
        assert(space_p@ =~= seq![' ']);
    }
    match find_chars(lib, &space_p) {
        Some(sp) => {
            proof {
                lemma_find_found(lib@, seq![' '], 0);
            }
            assert(sp < lib.len());
            (slice_of(lib, 0, sp), slice_of(lib, sp + 1, lib.len()))
        },
        None => {
            proof {
                assert(lib@.subrange(0, lib@.len() as int) =~= lib@);
            }
            (slice_of(lib, 0, lib.len()), Vec::new())
        },
    }
}

} // verus!
