//! Character-level text helpers shared by the log framing, the class-list
//! parser and the report renderer.
//!
//! Every text is modelled by its sequence of characters (`String::view`).
use vstd::prelude::*;

verus! {

/// The character views of a sequence of strings.
pub open spec fn texts(v: Seq<String>) -> Seq<Seq<char>> {
    v.map_values(|s: String| s@)
}

/// The Unicode `White_Space` characters: those that `char::is_whitespace`
/// accepts and that `str::trim` removes.
pub open spec fn is_space(c: char) -> bool {
    let u = c as u32;
    ||| 0x09 <= u <= 0x0D
    ||| u == 0x20
    ||| u == 0x85
    ||| u == 0xA0
    ||| u == 0x1680
    ||| 0x2000 <= u <= 0x200A
    ||| u == 0x2028
    ||| u == 0x2029
    ||| u == 0x202F
    ||| u == 0x205F
    ||| u == 0x3000
}

/// `s` without its leading white space.
pub open spec fn trim_start_spec(s: Seq<char>) -> Seq<char>
    decreases s.len(),
{
    if s.len() > 0 && is_space(s[0]) {
        trim_start_spec(s.drop_first())
    } else {
        s
    }
}

/// `s` without its trailing white space.
pub open spec fn trim_end_spec(s: Seq<char>) -> Seq<char>
    decreases s.len(),
{
    if s.len() > 0 && is_space(s.last()) {
        trim_end_spec(s.drop_last())
    } else {
        s
    }
}

/// `s` without leading and trailing white space (`str::trim`).
pub open spec fn trim_spec(s: Seq<char>) -> Seq<char> {
    trim_end_spec(trim_start_spec(s))
}

/// The pieces of `s` between occurrences of `sep` (`str::split` with a
/// character pattern): one more piece than there are separators.
pub open spec fn split_spec(s: Seq<char>, sep: char) -> Seq<Seq<char>>
    decreases s.len(),
{
    if s.len() == 0 {
        seq![Seq::<char>::empty()]
    } else {
        let pieces = split_spec(s.drop_last(), sep);
        if s.last() == sep {
            pieces.push(Seq::<char>::empty())
        } else {
            pieces.update(pieces.len() - 1, pieces.last().push(s.last()))
        }
    }
}

/// Lexicographic order of texts by code point, which is the byte order of
/// their UTF-8 encodings (the order of `str` comparisons).
pub open spec fn text_lt(a: Seq<char>, b: Seq<char>) -> bool
    decreases a.len(),
{
    if a.len() == 0 {
        b.len() > 0
    } else if b.len() == 0 {
        false
    } else if a[0] != b[0] {
        (a[0] as u32) < (b[0] as u32)
    } else {
        text_lt(a.drop_first(), b.drop_first())
    }
}

/// The decimal digit for `d < 10`.
pub open spec fn digit_char(d: nat) -> char {
    if d == 0 { '0' }
    else if d == 1 { '1' }
    else if d == 2 { '2' }
    else if d == 3 { '3' }
    else if d == 4 { '4' }
    else if d == 5 { '5' }
    else if d == 6 { '6' }
    else if d == 7 { '7' }
    else if d == 8 { '8' }
    else { '9' }
}

/// The decimal rendering of `n`, without leading zeros (`{}` on an integer).
pub open spec fn decimal_spec(n: nat) -> Seq<char>
    decreases n,
{
    if n < 10 {
        seq![digit_char(n)]
    } else {
        decimal_spec(n / 10).push(digit_char(n % 10))
    }
}

/// `n` spaces.
pub open spec fn spaces(n: nat) -> Seq<char> {
    Seq::new(n, |i: int| ' ')
}

/// `s` padded on the right with spaces to at least `width` characters
/// (`{:width}` on a string).
pub open spec fn pad_spec(s: Seq<char>, width: nat) -> Seq<char> {
    if s.len() < width {
        s + spaces((width - s.len()) as nat)
    } else {
        s
    }
}

/// The texts of `parts` joined by `sep` (`[..].join(sep)`).
pub open spec fn join_spec(parts: Seq<Seq<char>>, sep: Seq<char>) -> Seq<char>
    decreases parts.len(),
{
    if parts.len() == 0 {
        Seq::<char>::empty()
    } else if parts.len() == 1 {
        parts[0]
    } else {
        join_spec(parts.drop_last(), sep) + sep + parts.last()
    }
}

/// `String::push`: appends one character.
#[verifier::external_body]
fn push_char(s: &mut String, c: char)
    ensures
        final(s)@ == old(s)@.push(c),
{
    s.push(c)
}

/// Appends `t` to `s`.
pub fn append_text(s: &mut String, t: &str)
    ensures
        final(s)@ == old(s)@ + t@,
{
    s.append(t)
}

/// The characters of `s`, in order.
pub fn chars_of(s: &str) -> (v: Vec<char>)
    ensures
        v@ == s@,
{
    let mut v: Vec<char> = Vec::new();
    for c in it: s.chars()
        invariant
            v@ == it.seq().take(it.index() as int),
            it.seq() == s@,
    {
        v.push(c);
    }
    v
}

/// The string made of `v[lo..hi]`.
pub fn string_of_range(v: &Vec<char>, lo: usize, hi: usize) -> (r: String)
    requires
        lo <= hi <= v.len(),
    ensures
        r@ == v@.subrange(lo as int, hi as int),
{
    let mut r = String::new();
    let mut i = lo;
    while i < hi
        invariant
            lo <= i <= hi <= v.len(),
            r@ == v@.subrange(lo as int, i as int),
        decreases hi - i,
    {
        push_char(&mut r, v[i]);
        assert(v@.subrange(lo as int, i + 1) == v@.subrange(lo as int, i as int).push(v@[i as int]));
        i = i + 1;
    }
    r
}

/// Whether `c` is white space in the sense of `is_space`.
pub fn is_space_char(c: char) -> (b: bool)
    ensures
        b == is_space(c),
{
    let u = c as u32;
    (0x09 <= u && u <= 0x0D) || u == 0x20 || u == 0x85 || u == 0xA0 || u == 0x1680 || (0x2000
        <= u && u <= 0x200A) || u == 0x2028 || u == 0x2029 || u == 0x202F || u == 0x205F || u
        == 0x3000
}

proof fn lemma_trim_start(s: Seq<char>, i: int)
    requires
        0 <= i <= s.len(),
        forall|k: int| 0 <= k < i ==> is_space(#[trigger] s[k]),
        i == s.len() || !is_space(s[i]),
    ensures
        trim_start_spec(s) == s.skip(i),
    decreases i,
{
    if i == 0 {
        assert(s.skip(0) == s);
    } else {
        lemma_trim_start(s.drop_first(), i - 1);
        assert(s.drop_first().skip(i - 1) == s.skip(i));
    }
}

proof fn lemma_trim_end(s: Seq<char>, j: int)
    requires
        0 <= j <= s.len(),
        forall|k: int| j <= k < s.len() ==> is_space(#[trigger] s[k]),
        j == 0 || !is_space(s[j - 1]),
    ensures
        trim_end_spec(s) == s.take(j),
    decreases s.len() - j,
{
    if j == s.len() {
        assert(s.take(j) == s);
    } else {
        lemma_trim_end(s.drop_last(), j);
        assert(s.drop_last().take(j) == s.take(j));
    }
}

/// `s` without leading and trailing white space (`str::trim`).
pub fn trim(s: &str) -> (r: String)
    ensures
        r@ == trim_spec(s@),
{
    let v = chars_of(s);
    let n = v.len();
    let mut i: usize = 0;
    while i < n && is_space_char(v[i])
        invariant
            i <= n == v@.len(),
            forall|k: int| 0 <= k < i ==> is_space(#[trigger] v@[k]),
        decreases n - i,
    {
        i = i + 1;
    }
    let mut j: usize = n;
    while j > i && is_space_char(v[j - 1])
        invariant
            i <= j <= n == v@.len(),
            forall|k: int| j <= k < n ==> is_space(#[trigger] v@[k]),
        decreases j,
    {
        j = j - 1;
    }
    proof {
        lemma_trim_start(v@, i as int);
        let t = v@.skip(i as int);
        assert forall|k: int| (j - i) <= k < t.len() implies is_space(#[trigger] t[k]) by {
            assert(t[k] == v@[k + i]);
        }
        if j > i {
            assert(t[j - i - 1] == v@[j - 1]);
        }
        lemma_trim_end(t, (j - i) as int);
        assert(t.take((j - i) as int) == v@.subrange(i as int, j as int));
    }
    string_of_range(&v, i, j)
}

/// The pieces of `s` between occurrences of `sep` (`str::split`).
pub fn split(s: &str, sep: char) -> (r: Vec<String>)
    ensures
        texts(r@) == split_spec(s@, sep),
{
    let v = chars_of(s);
    let n = v.len();
    let mut pieces: Vec<String> = Vec::new();
    let mut cur = String::new();
    let mut i: usize = 0;
    assert(v@.take(0) == Seq::<char>::empty());
    while i < n
        invariant
            i <= n == v@.len(),
            texts(pieces@).push(cur@) == split_spec(v@.take(i as int), sep),
        decreases n - i,
    {
        let c = v[i];
        let ghost before = texts(pieces@).push(cur@);
        assert(v@.take(i + 1).drop_last() == v@.take(i as int));
        if c == sep {
            let done = cur;
            pieces.push(done);
            cur = String::new();
            assert(texts(pieces@) == before);
        } else {
            push_char(&mut cur, c);
            assert(texts(pieces@).push(cur@) == before.update(
                before.len() - 1,
                before.last().push(c),
            ));
        }
        i = i + 1;
    }
    assert(v@.take(n as int) == v@);
    pieces.push(cur);
    assert(texts(pieces@) == split_spec(s@, sep));
    pieces
}

/// Whether the two texts are the same character sequence.
pub fn same_text(a: &str, b: &str) -> (r: bool)
    ensures
        r == (a@ == b@),
{
    let x = chars_of(a);
    let y = chars_of(b);
    if x.len() != y.len() {
        return false;
    }
    let mut i: usize = 0;
    while i < x.len()
        invariant
            i <= x.len() == y.len(),
            x@ == a@,
            y@ == b@,
            forall|k: int| 0 <= k < i ==> x@[k] == y@[k],
        decreases x.len() - i,
    {
        if x[i] != y[i] {
            assert(x@[i as int] != y@[i as int]);
            return false;
        }
        i = i + 1;
    }
    assert(x@ =~= y@);
    true
}

proof fn lemma_text_lt_prefix(a: Seq<char>, b: Seq<char>, i: int)
    requires
        0 <= i <= a.len(),
        i <= b.len(),
        forall|k: int| 0 <= k < i ==> a[k] == b[k],
    ensures
        text_lt(a, b) == text_lt(a.skip(i), b.skip(i)),
    decreases i,
{
    if i > 0 {
        lemma_text_lt_prefix(a.drop_first(), b.drop_first(), i - 1);
        assert(a.drop_first().skip(i - 1) == a.skip(i));
        assert(b.drop_first().skip(i - 1) == b.skip(i));
    } else {
        assert(a.skip(0) == a);
        assert(b.skip(0) == b);
    }
}

/// Whether `a` comes strictly before `b` in `text_lt` order (`a < b` on `str`).
pub fn text_less(a: &str, b: &str) -> (r: bool)
    ensures
        r == text_lt(a@, b@),
{
    let x = chars_of(a);
    let y = chars_of(b);
    let mut i: usize = 0;
    while i < x.len() && i < y.len() && x[i] == y[i]
        invariant
            i <= x.len(),
            i <= y.len(),
            forall|k: int| 0 <= k < i ==> x@[k] == y@[k],
        decreases x.len() - i,
    {
        i = i + 1;
    }
    proof {
        lemma_text_lt_prefix(x@, y@, i as int);
    }
    if i == x.len() {
        proof {
            assert(x@.skip(i as int).len() == 0);
        }
        i < y.len()
    } else if i == y.len() {
        false
    } else {
        proof {
            assert(x@.skip(i as int)[0] == x@[i as int]);
            assert(y@.skip(i as int)[0] == y@[i as int]);
        }
        (x[i] as u32) < (y[i] as u32)
    }
}

/// The decimal digit character for `d < 10`.
fn digit(d: usize) -> (c: char)
    requires
        d < 10,
    ensures
        c == digit_char(d as nat),
{
    if d == 0 { '0' }
    else if d == 1 { '1' }
    else if d == 2 { '2' }
    else if d == 3 { '3' }
    else if d == 4 { '4' }
    else if d == 5 { '5' }
    else if d == 6 { '6' }
    else if d == 7 { '7' }
    else if d == 8 { '8' }
    else { '9' }
}

/// Appends the decimal rendering of `n` to `s`.
pub fn append_decimal(s: &mut String, n: usize)
    ensures
        final(s)@ == old(s)@ + decimal_spec(n as nat),
    decreases n,
{
    if n < 10 {
        push_char(s, digit(n));
        assert(decimal_spec(n as nat) == seq![digit_char(n as nat)]);
    } else {
        append_decimal(s, n / 10);
        push_char(s, digit(n % 10));
        assert(old(s)@ + decimal_spec(n as nat) == old(s)@ + decimal_spec((n / 10) as nat) + seq![
            digit_char((n % 10) as nat),
        ]);
    }
}

/// Appends `t` padded on the right with spaces to `width` characters.
pub fn append_padded(s: &mut String, t: &str, width: usize)
    ensures
        final(s)@ == old(s)@ + pad_spec(t@, width as nat),
{
    let len = chars_of(t).len();
    append_text(s, t);
    let mut k = len;
    while k < width
        invariant
            len == t@.len(),
            len <= k <= width || (k == len && len >= width),
            s@ == old(s)@ + t@ + spaces((k - len) as nat),
        decreases width - k,
    {
        push_char(s, ' ');
        assert(spaces((k + 1 - len) as nat) == spaces((k - len) as nat).push(' '));
        k = k + 1;
    }
    assert(spaces(0) == Seq::<char>::empty());
    if len < width {
        assert(k == width);
    }
}

/// Appends the texts of `parts` joined by `sep`.
pub fn append_joined(s: &mut String, parts: &Vec<String>, sep: &str)
    ensures
        final(s)@ == old(s)@ + join_spec(texts(parts@), sep@),
{
    let mut i: usize = 0;
    while i < parts.len()
        invariant
            i <= parts.len(),
            s@ == old(s)@ + join_spec(texts(parts@).take(i as int), sep@),
        decreases parts.len() - i,
    {
        let ghost prefix = texts(parts@).take(i as int);
        let ghost next = texts(parts@).take(i + 1);
        assert(next.drop_last() == prefix);
        assert(next.last() == parts@[i as int]@);
        if i > 0 {
            append_text(s, sep);
        } else {
            assert(join_spec(prefix, sep@) == Seq::<char>::empty());
        }
        append_text(s, parts[i].as_str());
        i = i + 1;
    }
    assert(texts(parts@).take(parts.len() as int) == texts(parts@));
}


/// No text comes strictly before itself.
pub proof fn lemma_text_lt_irreflexive(a: Seq<char>)
    ensures
        !text_lt(a, a),
    decreases a.len(),
{
    if a.len() > 0 {
        lemma_text_lt_irreflexive(a.drop_first());
    }
}


/// Splitting is undone by joining: the pieces of `s`, joined with `sep`,
/// give `s` back, and no piece contains `sep`.
pub proof fn lemma_split_inverse(s: Seq<char>, sep: char)
    ensures
        join_spec(split_spec(s, sep), seq![sep]) == s,
        forall|i: int, k: int|
            0 <= i < split_spec(s, sep).len() && 0 <= k < split_spec(s, sep)[i].len() ==> (
            #[trigger] split_spec(s, sep)[i][k]) != sep,
        split_spec(s, sep).len() >= 1,
    decreases s.len(),
{
    if s.len() > 0 {
        let init = s.drop_last();
        lemma_split_inverse(init, sep);
        let p = split_spec(init, sep);
        let q = split_spec(s, sep);
        let c = s.last();
        assert(init.push(c) == s);
        if c == sep {
            assert(q == p.push(Seq::<char>::empty()));
            assert(q.drop_last() == p);
            assert(join_spec(q, seq![sep]) == join_spec(p, seq![sep]) + seq![sep] + Seq::<char>::empty());
            assert forall|i: int, k: int| 0 <= i < q.len() && 0 <= k < q[i].len() implies (
            #[trigger] q[i][k]) != sep by {
                assert(q[i] == p[i]);
            }
        } else {
            let last = p.last().push(c);
            assert(q == p.update(p.len() - 1, last));
            if p.len() == 1 {
                assert(join_spec(q, seq![sep]) == q[0]);
                assert(join_spec(p, seq![sep]) == p[0]);
            } else {
                assert(q.drop_last() == p.drop_last());
                assert(q.last() == last);
                assert(join_spec(q, seq![sep]) == join_spec(p.drop_last(), seq![sep]) + seq![sep]
                    + last);
                assert(join_spec(p, seq![sep]) == join_spec(p.drop_last(), seq![sep]) + seq![sep]
                    + p.last());
            }
            assert forall|i: int, k: int| 0 <= i < q.len() && 0 <= k < q[i].len() implies (
            #[trigger] q[i][k]) != sep by {
                if i < p.len() - 1 {
                    assert(q[i] == p[i]);
                } else if k < p.last().len() {
                    assert(q[i][k] == p[p.len() - 1][k]);
                }
            }
        }
    }
}

} // verus!
