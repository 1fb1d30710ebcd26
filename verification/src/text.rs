//! Character-sequence utilities shared by the wire codec, the stored-map
//! reader and the query engine: locating delimiters, stripping line
//! terminators, decimal digit strings and substring search.
use vstd::prelude::*;

verus! {

/// Index of the first occurrence of `c` in `s`, or `-1` when `s` does not
/// contain `c`.
pub open spec fn find_ch(s: Seq<char>, c: char) -> int
    decreases s.len(),
{
    if s.len() == 0 {
        -1
    } else if s[0] == c {
        0
    } else {
        let r = find_ch(s.drop_first(), c);
        if r < 0 {
            -1
        } else {
            r + 1
        }
    }
}

/// `find_ch` returns `-1` exactly when `c` is absent, and otherwise the
/// position of the first occurrence.
pub proof fn lemma_find_ch(s: Seq<char>, c: char)
    ensures
        find_ch(s, c) == -1 ==> forall|i: int| 0 <= i < s.len() ==> s[i] != c,
        find_ch(s, c) != -1 ==> {
            let f = find_ch(s, c);
            &&& 0 <= f < s.len()
            &&& s[f] == c
            &&& forall|i: int| 0 <= i < f ==> s[i] != c
        },
    decreases s.len(),
{
    if s.len() == 0 {
    } else if s[0] == c {
    } else {
        lemma_find_ch(s.drop_first(), c);
        let t = s.drop_first();
        let r = find_ch(t, c);
        if r == -1 {
            assert forall|i: int| 0 <= i < s.len() implies s[i] != c by {
                if i > 0 {
                    assert(t[i - 1] != c);
                }
            }
        } else {
            assert(s[r + 1] == t[r]);
            assert forall|i: int| 0 <= i < r + 1 implies s[i] != c by {
                if i > 0 {
                    assert(t[i - 1] != c);
                }
            }
        }
    }
}

/// The first occurrence is pinned by exhibiting an occurrence with none
/// before it.
pub proof fn lemma_find_ch_at(s: Seq<char>, c: char, i: int)
    requires
        0 <= i < s.len(),
        s[i] == c,
        forall|j: int| 0 <= j < i ==> s[j] != c,
    ensures
        find_ch(s, c) == i,
{
    lemma_find_ch(s, c);
    let f = find_ch(s, c);
    if f == -1 {
        assert(s[i] != c);
    } else if f < i {
        assert(s[f] != c);
    } else if f > i {
        assert(s[i] != c);
    }
}

pub proof fn lemma_find_ch_absent(s: Seq<char>, c: char)
    requires
        forall|j: int| 0 <= j < s.len() ==> s[j] != c,
    ensures
        find_ch(s, c) == -1,
{
    lemma_find_ch(s, c);
    let f = find_ch(s, c);
    if f != -1 {
        assert(s[f] != c);
    }
}

/// Appending a block that starts with `c` to a `c`-free prefix puts the
/// first occurrence exactly at the seam.
pub proof fn lemma_find_ch_seam(a: Seq<char>, b: Seq<char>, c: char)
    requires
        forall|j: int| 0 <= j < a.len() ==> a[j] != c,
        b.len() > 0,
        b[0] == c,
    ensures
        find_ch(a + b, c) == a.len(),
{
    let s = a + b;
    assert(s[a.len() as int] == c);
    assert forall|j: int| 0 <= j < a.len() implies s[j] != c by {
        assert(s[j] == a[j]);
    }
    lemma_find_ch_at(s, c, a.len() as int);
}

/// A request or record line with its trailing `"\r\n"`, `"\n"` or `"\r"`
/// terminator removed.
pub open spec fn strip_eol(s: Seq<char>) -> Seq<char> {
    let t = if s.len() >= 1 && s[s.len() - 1] == '\n' {
        s.drop_last()
    } else {
        s
    };
    if t.len() >= 1 && t[t.len() - 1] == '\r' {
        t.drop_last()
    } else {
        t
    }
}

/// A field value that may stand inside a wire record line: free of the
/// tab delimiter and of line terminators.
pub open spec fn field_ok(s: Seq<char>) -> bool {
    forall|i: int| 0 <= i < s.len() ==> s[i] != '\t' && s[i] != '\r' && s[i] != '\n'
}

pub open spec fn is_digit(c: char) -> bool {
    c == '0' || c == '1' || c == '2' || c == '3' || c == '4' || c == '5' || c == '6' || c == '7'
        || c == '8' || c == '9'
}

pub open spec fn digit_val(c: char) -> nat {
    if c == '0' {
        0
    } else if c == '1' {
        1
    } else if c == '2' {
        2
    } else if c == '3' {
        3
    } else if c == '4' {
        4
    } else if c == '5' {
        5
    } else if c == '6' {
        6
    } else if c == '7' {
        7
    } else if c == '8' {
        8
    } else {
        9
    }
}

pub open spec fn digit_char(d: nat) -> char {
    if d == 0 {
        '0'
    } else if d == 1 {
        '1'
    } else if d == 2 {
        '2'
    } else if d == 3 {
        '3'
    } else if d == 4 {
        '4'
    } else if d == 5 {
        '5'
    } else if d == 6 {
        '6'
    } else if d == 7 {
        '7'
    } else if d == 8 {
        '8'
    } else {
        '9'
    }
}

pub open spec fn all_digits(s: Seq<char>) -> bool {
    forall|i: int| 0 <= i < s.len() ==> is_digit(s[i])
}

/// Numeric value of a digit string, most significant digit first.
pub open spec fn dec_val(s: Seq<char>) -> nat
    decreases s.len(),
{
    if s.len() == 0 {
        0
    } else {
        dec_val(s.drop_last()) * 10 + digit_val(s.last())
    }
}

/// Canonical decimal rendering of `n`: no leading zeros except for `0`
/// itself.
pub open spec fn dec_rep(n: nat) -> Seq<char>
    decreases n,
{
    if n < 10 {
        seq![digit_char(n)]
    } else {
        dec_rep(n / 10).push(digit_char(n % 10))
    }
}

pub proof fn lemma_dec_rep_digits(n: nat)
    ensures
        dec_rep(n).len() >= 1,
        all_digits(dec_rep(n)),
    decreases n,
{
    if n < 10 {
    } else {
        lemma_dec_rep_digits(n / 10);
    }
}

/// The decimal rendering evaluates back to the number it renders.
pub proof fn lemma_dec_rep_val(n: nat)
    ensures
        dec_val(dec_rep(n)) == n,
    decreases n,
{
    if n < 10 {
        assert(dec_rep(n).drop_last() =~= Seq::<char>::empty());
        assert(dec_val(Seq::<char>::empty()) == 0);
    } else {
        let p = dec_rep(n / 10);
        let d = digit_char(n % 10);
        let s = p.push(d);
        assert(s.drop_last() =~= p);
        assert(s.last() == d);
        assert(dec_val(s) == dec_val(p) * 10 + digit_val(d));
        lemma_dec_rep_val(n / 10);
        assert(n % 10 < 10);
        assert(digit_val(d) == n % 10);
        vstd::arithmetic::div_mod::lemma_fundamental_div_mod(n as int, 10);
        assert(dec_val(s) == n);
    }
}

/// A digit string is worth at least as much as any of its prefixes.
pub proof fn lemma_dec_val_prefix(s: Seq<char>, i: int)
    requires
        0 <= i <= s.len(),
    ensures
        dec_val(s.subrange(0, i)) <= dec_val(s),
    decreases s.len() - i,
{
    if i == s.len() {
        assert(s.subrange(0, i) =~= s);
    } else {
        assert(s.subrange(0, i + 1).drop_last() =~= s.subrange(0, i));
        assert(dec_val(s.subrange(0, i + 1)) == dec_val(s.subrange(0, i)) * 10 + digit_val(
            s[i],
        ));
        lemma_dec_val_prefix(s, i + 1);
    }
}

/// `needle` occurs contiguously somewhere in `hay`.
pub open spec fn has_sub(hay: Seq<char>, needle: Seq<char>) -> bool {
    exists|i: int|
        0 <= i && i + needle.len() <= hay.len() && #[trigger] hay.subrange(
            i,
            i + needle.len() as int,
        ) == needle
}

/// Whether `hay[i..]` starts with `needle`.
fn starts_at(hay: &Vec<char>, needle: &Vec<char>, i: usize) -> (b: bool)
    requires
        i + needle@.len() <= hay@.len(),
    ensures
        b == (hay@.subrange(i as int, i + needle@.len() as int) == needle@),
{
    let ghost win = hay@.subrange(i as int, i + needle@.len() as int);
    let n = needle.len();
    let hl = hay.len();
    let mut j: usize = 0;
    while j < n
        invariant
            n == needle@.len(),
            hl == hay@.len(),
            i + n <= hl,
            j <= n,
            win == hay@.subrange(i as int, i + needle@.len() as int),
            forall|k: int| 0 <= k < j ==> win[k] == needle@[k],
        decreases n - j,
    {
        assert(win[j as int] == hay@[i + j]);
        if hay[i + j] != needle[j] {
            assert(win[j as int] != needle@[j as int]);
            return false;
        }
        j = j + 1;
    }
    proof {
        assert(win =~= needle@);
    }
    true
}

/// Case-sensitive substring test: whether `needle` occurs contiguously in
/// `hay`.
pub fn contains_sub(hay: &Vec<char>, needle: &Vec<char>) -> (b: bool)
    ensures
        b == has_sub(hay@, needle@),
{
    let n = needle.len();
    let h = hay.len();
    if n == 0 {
        proof {
            assert(has_sub(hay@, needle@)) by {
                assert(hay@.subrange(0, 0 + needle@.len() as int) =~= needle@);
            }
        }
        return true;
    }
    if n > h {
        return false;
    }
    let mut i: usize = 0;
    while i <= h - n
        invariant
            n == needle@.len(),
            h == hay@.len(),
            1 <= n <= h,
            i <= h - n + 1,
            forall|k: int|
                0 <= k < i ==> #[trigger] hay@.subrange(k, k + needle@.len() as int) != needle@,
        decreases h - n + 1 - i,
    {
        if starts_at(hay, needle, i) {
            return true;
        }
        i = i + 1;
    }
    false
}

/// The characters of `s`, in order, as a vector.
pub fn str_to_chars(s: &str) -> (v: Vec<char>)
    ensures
        v@ == s@,
{
    let n = s.unicode_len();
    let mut v: Vec<char> = Vec::new();
    let mut i: usize = 0;
    while i < n
        invariant
            n == s@.len(),
            i <= n,
            v@ =~= s@.subrange(0, i as int),
        decreases n - i,
    {
        v.push(s.get_char(i));
        i = i + 1;
    }
    assert(v@ =~= s@);
    v
}

/// Relies on `String`'s `FromIterator<char>` implementation: collecting an
/// iterator of characters yields a string whose characters are exactly
/// those of the iterator, in order.
#[verifier::external_body]
pub fn chars_to_string(v: &Vec<char>) -> (s: String)
    ensures
        s@ == v@,
{
    v.iter().collect()
}

/// Copy of `v[a..b]`.
pub fn subvec(v: &Vec<char>, a: usize, b: usize) -> (r: Vec<char>)
    requires
        a <= b <= v@.len(),
    ensures
        r@ == v@.subrange(a as int, b as int),
{
    let mut r: Vec<char> = Vec::new();
    let mut i: usize = a;
    while i < b
        invariant
            a <= i <= b <= v@.len(),
            r@ =~= v@.subrange(a as int, i as int),
        decreases b - i,
    {
        r.push(v[i]);
        i = i + 1;
    }
    assert(r@ =~= v@.subrange(a as int, b as int));
    r
}

/// First position of `c` in `v` at or after `from`.
pub fn find_char_from(v: &Vec<char>, from: usize, c: char) -> (r: Option<usize>)
    requires
        from <= v@.len(),
    ensures
        match r {
            Some(i) => from <= i < v@.len() && v@[i as int] == c && forall|j: int|
                from <= j < i ==> v@[j] != c,
            None => forall|j: int| from <= j < v@.len() ==> v@[j] != c,
        },
{
    let mut i: usize = from;
    while i < v.len()
        invariant
            from <= i <= v@.len(),
            forall|j: int| from <= j < i ==> v@[j] != c,
        decreases v@.len() - i,
    {
        if v[i] == c {
            return Some(i);
        }
        i = i + 1;
    }
    None
}

pub fn is_digit_ch(c: char) -> (r: bool)
    ensures
        r == is_digit(c),
{
    c == '0' || c == '1' || c == '2' || c == '3' || c == '4' || c == '5' || c == '6' || c == '7'
        || c == '8' || c == '9'
}

pub fn digit_val_ch(c: char) -> (r: u16)
    requires
        is_digit(c),
    ensures
        r == digit_val(c),
{
    if c == '0' {
        0
    } else if c == '1' {
        1
    } else if c == '2' {
        2
    } else if c == '3' {
        3
    } else if c == '4' {
        4
    } else if c == '5' {
        5
    } else if c == '6' {
        6
    } else if c == '7' {
        7
    } else if c == '8' {
        8
    } else {
        9
    }
}

pub fn digit_ch_of(d: u16) -> (r: char)
    requires
        d < 10,
    ensures
        r == digit_char(d as nat),
{
    if d == 0 {
        '0'
    } else if d == 1 {
        '1'
    } else if d == 2 {
        '2'
    } else if d == 3 {
        '3'
    } else if d == 4 {
        '4'
    } else if d == 5 {
        '5'
    } else if d == 6 {
        '6'
    } else if d == 7 {
        '7'
    } else if d == 8 {
        '8'
    } else {
        '9'
    }
}

/// Appends the canonical decimal rendering of `n` to `out`.
pub fn push_dec(n: u16, out: &mut Vec<char>)
    ensures
        final(out)@ == old(out)@ + dec_rep(n as nat),
    decreases n,
{
    if n < 10 {
        out.push(digit_ch_of(n));
        assert(out@ =~= old(out)@ + dec_rep(n as nat));
    } else {
        assert(n / 10 < n) by (nonlinear_arith)
            requires
                n >= 10,
        ;
        push_dec(n / 10, out);
        out.push(digit_ch_of(n % 10));
        assert(out@ =~= old(out)@ + dec_rep(n as nat));
    }
}

/// Reads `v[from..]` as a decimal port number: the segment must be
/// non-empty, all digits, and worth at most 65535.
pub fn parse_port(v: &Vec<char>, from: usize) -> (r: Option<u16>)
    requires
        from <= v@.len(),
    ensures
        ({
            let seg = v@.subrange(from as int, v@.len() as int);
            match r {
                Some(p) => seg.len() > 0 && all_digits(seg) && dec_val(seg) == p,
                None => seg.len() == 0 || !all_digits(seg) || dec_val(seg) > 65535,
            }
        }),
{
    let ghost seg = v@.subrange(from as int, v@.len() as int);
    if from == v.len() {
        return None;
    }
    let mut val: u32 = 0;
    let mut i: usize = from;
    while i < v.len()
        invariant
            from <= i <= v@.len(),
            seg == v@.subrange(from as int, v@.len() as int),
            all_digits(seg.subrange(0, i - from)),
            val == dec_val(seg.subrange(0, i - from)),
            val <= 65535,
        decreases v@.len() - i,
    {
        let c = v[i];
        assert(seg[i - from] == v@[i as int]);
        if !is_digit_ch(c) {
            return None;
        }
        let d = digit_val_ch(c);
        let next: u32 = val * 10 + d as u32;
        proof {
            assert(seg.subrange(0, i + 1 - from).drop_last() =~= seg.subrange(0, i - from));
            assert(dec_val(seg.subrange(0, i + 1 - from)) == next);
        }
        if next > 65535 {
            proof {
                lemma_dec_val_prefix(seg, i + 1 - from);
            }
            return None;
        }
        val = next;
        i = i + 1;
    }
    proof {
        assert(seg.subrange(0, i - from) =~= seg);
    }
    Some(val as u16)
}

} // verus!
