use vstd::prelude::*;

verus! {

/// The characters of `s`, in order.
pub fn chars_of(s: &str) -> (r: Vec<char>)
    ensures
        r@ == s@,
{
    let mut out: Vec<char> = Vec::new();
    for c in it: s.chars()
        invariant
            out@ == it.seq().take(it.index() as int),
            it.seq() == s@,
    {
        out.push(c);
    }
    out
}

/// Appends one character to `s`.
///
/// Trusted: calls `String::push`, which std documents as appending the given
/// `char` to the end of the string; the contract says exactly that.
#[verifier::external_body]
pub(crate) fn push_char(s: &mut String, c: char)
    ensures
        final(s)@ == old(s)@.push(c),
{
    s.push(c);
}

/// Appends `cs[start..end]` to `s`.
pub fn push_range(s: &mut String, cs: &Vec<char>, start: usize, end: usize)
    requires
        start <= end <= cs.len(),
    ensures
        final(s)@ == old(s)@ + cs@.subrange(start as int, end as int),
{
    let mut i = start;
    while i < end
        invariant
            start <= i <= end <= cs.len(),
            s@ == old(s)@ + cs@.subrange(start as int, i as int),
        decreases end - i,
    {
        push_char(s, cs[i]);
        assert(cs@.subrange(start as int, i + 1) =~= cs@.subrange(start as int, i as int).push(
            cs@[i as int],
        ));
        i += 1;
    }
}

/// A new string holding `cs[start..end]`.
pub fn string_from_range(cs: &Vec<char>, start: usize, end: usize) -> (r: String)
    requires
        start <= end <= cs.len(),
    ensures
        r@ == cs@.subrange(start as int, end as int),
{
    let mut s = String::new();
    push_range(&mut s, cs, start, end);
    assert(s@ =~= cs@.subrange(start as int, end as int));
    s
}

/// Whether two character vectors hold the same characters.
pub fn chars_equal(a: &Vec<char>, b: &Vec<char>) -> (r: bool)
    ensures
        r == (a@ == b@),
{
    if a.len() != b.len() {
        return false;
    }
    let mut i: usize = 0;
    while i < a.len()
        invariant
            a.len() == b.len(),
            i <= a.len(),
            forall|j: int| 0 <= j < i ==> a@[j] == b@[j],
        decreases a.len() - i,
    {
        if a[i] != b[i] {
            return false;
        }
        i += 1;
    }
    assert(a@ =~= b@);
    true
}

/// Whether two strings hold the same characters.
pub fn str_eq(a: &str, b: &str) -> (r: bool)
    ensures
        r == (a@ == b@),
{
    let ca = chars_of(a);
    let cb = chars_of(b);
    chars_equal(&ca, &cb)
}

/// Lexicographic order on character sequences, comparing characters by code point
/// (the order in which `str` compares, since UTF-8 keeps code-point order).
pub open spec fn chars_le(a: Seq<char>, b: Seq<char>) -> bool
    decreases a.len(),
{
    if a.len() == 0 {
        true
    } else if b.len() == 0 {
        false
    } else if a[0] != b[0] {
        a[0] < b[0]
    } else {
        chars_le(a.subrange(1, a.len() as int), b.subrange(1, b.len() as int))
    }
}

/// Any two character sequences are ordered one way or the other.
pub proof fn lemma_chars_le_total(a: Seq<char>, b: Seq<char>)
    ensures
        chars_le(a, b) || chars_le(b, a),
    decreases a.len(),
{
    if a.len() > 0 && b.len() > 0 {
        if a[0] == b[0] {
            lemma_chars_le_total(a.subrange(1, a.len() as int), b.subrange(1, b.len() as int));
        }
    }
}

/// The order on character sequences is transitive.
pub proof fn lemma_chars_le_transitive(a: Seq<char>, b: Seq<char>, c: Seq<char>)
    requires
        chars_le(a, b),
        chars_le(b, c),
    ensures
        chars_le(a, c),
    decreases a.len(),
{
    if a.len() > 0 && b.len() > 0 && c.len() > 0 && a[0] == b[0] && b[0] == c[0] {
        lemma_chars_le_transitive(
            a.subrange(1, a.len() as int),
            b.subrange(1, b.len() as int),
            c.subrange(1, c.len() as int),
        );
    }
}

/// Two character sequences that each sort no later than the other are equal.
pub proof fn lemma_chars_le_antisymmetric(a: Seq<char>, b: Seq<char>)
    requires
        chars_le(a, b),
        chars_le(b, a),
    ensures
        a == b,
    decreases a.len(),
{
    if a.len() > 0 && b.len() > 0 {
        let a1 = a.subrange(1, a.len() as int);
        let b1 = b.subrange(1, b.len() as int);
        lemma_chars_le_antisymmetric(a1, b1);
        assert(a =~= seq![a[0]] + a1);
        assert(b =~= seq![b[0]] + b1);
    } else {
        assert(a.len() == 0 && b.len() == 0);
        assert(a =~= b);
    }
}

/// The order on character sequences puts a sequence no later than any extension
/// of it, and strictly before any longer extension: the empty sequence comes
/// first, and a proper prefix sorts before the longer sequence.
pub proof fn law_chars_le_prefix(a: Seq<char>, s: Seq<char>)
    ensures
        chars_le(a, a + s),
        s.len() > 0 ==> !chars_le(a + s, a),
    decreases a.len(),
{
    if a.len() > 0 {
        let a1 = a.subrange(1, a.len() as int);
        law_chars_le_prefix(a1, s);
        assert((a + s)[0] == a[0]);
        assert((a + s).subrange(1, (a + s).len() as int) =~= a1 + s);
    } else {
        assert(a + s =~= s);
    }
}

/// Past a common prefix, the first differing character decides the order, by
/// code point.
pub proof fn law_chars_le_first_difference(p: Seq<char>, x: char, y: char, r1: Seq<char>, r2: Seq<char>)
    requires
        x != y,
    ensures
        chars_le(p + seq![x] + r1, p + seq![y] + r2) == (x < y),
    decreases p.len(),
{
    let a = p + seq![x] + r1;
    let b = p + seq![y] + r2;
    if p.len() > 0 {
        let p1 = p.subrange(1, p.len() as int);
        law_chars_le_first_difference(p1, x, y, r1, r2);
        assert(a[0] == p[0] && b[0] == p[0]);
        assert(a.subrange(1, a.len() as int) =~= p1 + seq![x] + r1);
        assert(b.subrange(1, b.len() as int) =~= p1 + seq![y] + r2);
    } else {
        assert(a[0] == x && b[0] == y);
    }
}

proof fn lemma_chars_le_from(a: Seq<char>, b: Seq<char>, i: int)
    requires
        0 <= i <= a.len(),
        i <= b.len(),
        forall|j: int| 0 <= j < i ==> a[j] == b[j],
    ensures
        chars_le(a, b) == chars_le(a.subrange(i, a.len() as int), b.subrange(i, b.len() as int)),
    decreases i,
{
    if i > 0 {
        let a1 = a.subrange(1, a.len() as int);
        let b1 = b.subrange(1, b.len() as int);
        lemma_chars_le_from(a1, b1, i - 1);
        assert(a1.subrange(i - 1, a1.len() as int) =~= a.subrange(i, a.len() as int));
        assert(b1.subrange(i - 1, b1.len() as int) =~= b.subrange(i, b.len() as int));
    } else {
        assert(a.subrange(0, a.len() as int) =~= a);
        assert(b.subrange(0, b.len() as int) =~= b);
    }
}

/// Whether `a` sorts no later than `b` in code-point lexicographic order.
pub fn chars_le_exec(a: &Vec<char>, b: &Vec<char>) -> (r: bool)
    ensures
        r == chars_le(a@, b@),
{
    let mut i: usize = 0;
    while i < a.len() && i < b.len()
        invariant
            i <= a.len(),
            i <= b.len(),
            forall|j: int| 0 <= j < i ==> a@[j] == b@[j],
        decreases a.len() - i,
    {
        if a[i] != b[i] {
            proof {
                lemma_chars_le_from(a@, b@, i as int);
            }
            return a[i] < b[i];
        }
        i += 1;
    }
    proof {
        lemma_chars_le_from(a@, b@, i as int);
    }
    i == a.len()
}


/// The decimal digit character for `d < 10`.
pub open spec fn digit(d: int) -> char {
    (48 + d) as char
}

/// The decimal notation of `n`, without leading zeros.
pub open spec fn decimal(n: nat) -> Seq<char>
    decreases n,
{
    if n < 10 {
        seq![digit(n as int)]
    } else {
        decimal(n / 10).push(digit((n % 10) as int))
    }
}

/// The decimal notation of `n`, padded with a leading zero to at least two digits.
pub open spec fn decimal2(n: nat) -> Seq<char> {
    if n < 10 {
        seq!['0', digit(n as int)]
    } else {
        decimal(n)
    }
}

fn digit_char(d: u64) -> (c: char)
    requires
        d < 10,
    ensures
        c == digit(d as int),
{
    let small = d as u8;
    (small + 48) as char
}

/// Appends the decimal notation of `n` to `s`.
pub fn push_decimal(s: &mut String, n: u64)
    ensures
        final(s)@ == old(s)@ + decimal(n as nat),
    decreases n,
{
    if n >= 10 {
        push_decimal(s, n / 10);
    }
    push_char(s, digit_char(n % 10));
    assert(final(s)@ =~= old(s)@ + decimal(n as nat));
}

/// Appends the decimal notation of `n`, padded to two digits, to `s`.
pub fn push_decimal2(s: &mut String, n: u64)
    ensures
        final(s)@ == old(s)@ + decimal2(n as nat),
{
    if n < 10 {
        push_char(s, '0');
    }
    push_decimal(s, n);
    assert(final(s)@ =~= old(s)@ + decimal2(n as nat));
}

/// `piece` written `count` times in a row.
pub open spec fn repeated(piece: Seq<char>, count: nat) -> Seq<char>
    decreases count,
{
    if count == 0 {
        seq![]
    } else {
        repeated(piece, (count - 1) as nat) + piece
    }
}

/// Appends `piece` to `s` `count` times.
pub fn push_repeated(s: &mut String, piece: &str, count: usize)
    ensures
        final(s)@ == old(s)@ + repeated(piece@, count as nat),
{
    let mut i: usize = 0;
    assert(old(s)@ + repeated(piece@, 0) =~= old(s)@);
    while i < count
        invariant
            i <= count,
            s@ == old(s)@ + repeated(piece@, i as nat),
        decreases count - i,
    {
        s.append(piece);
        assert(s@ =~= old(s)@ + repeated(piece@, (i + 1) as nat));
        i += 1;
    }
}

/// Number of bytes in the UTF-8 encoding of `s` (what `str::len` counts).
pub open spec fn byte_len(s: Seq<char>) -> nat {
    vstd::utf8::encode_utf8(s).len()
}

/// `line` preceded by half the spare width in spaces, the width measured in
/// bytes; unchanged when it does not fit.
pub open spec fn centered(line: Seq<char>, width: nat) -> Seq<char> {
    if byte_len(line) >= width {
        line
    } else {
        repeated(seq![' '], ((width - byte_len(line)) / 2) as nat) + line
    }
}

/// Centres `line` in `width` columns by padding on the left (see `centered`).
pub fn center_line(line: &str, width: usize) -> (r: String)
    ensures
        r@ == centered(line@, width as nat),
{
    let bytes = line.as_bytes();
    let len = bytes.len();
    assert(len == byte_len(line@));
    let mut out = String::new();
    if len >= width {
        out.append(line);
        assert(out@ =~= line@);
        return out;
    }
    let left_padding = (width - len) / 2;
    push_repeated(&mut out, " ", left_padding);
    proof {
        reveal_strlit(" ");
        assert(" "@ =~= seq![' ']);
    }
    out.append(line);
    out
}

/// `line` shortened to `width` characters, its last one an ellipsis, when it is
/// longer than that; a zero width means no limit.
pub open spec fn fitted(line: Seq<char>, width: nat) -> Seq<char> {
    if width == 0 || line.len() <= width {
        line
    } else if width <= 1 {
        seq!['\u{2026}']
    } else {
        line.take(width - 1).push('\u{2026}')
    }
}

/// Shortens `line` to `width` characters (see `fitted`).
pub fn fit_inline(line: &str, width: usize) -> (r: String)
    ensures
        r@ == fitted(line@, width as nat),
{
    let cs = chars_of(line);
    if width == 0 || cs.len() <= width {
        return string_from_range(&cs, 0, cs.len());
    }
    if width <= 1 {
        let mut out = String::new();
        push_char(&mut out, '\u{2026}');
        assert(out@ =~= seq!['\u{2026}']);
        return out;
    }
    let mut out = string_from_range(&cs, 0, width - 1);
    push_char(&mut out, '\u{2026}');
    assert(out@ =~= fitted(line@, width as nat));
    out
}

/// Index of the first `c` in `s`, or -1.
pub open spec fn first_index(s: Seq<char>, c: char) -> int
    decreases s.len(),
{
    if s.len() == 0 {
        -1
    } else if s[0] == c {
        0
    } else {
        let r = first_index(s.subrange(1, s.len() as int), c);
        if r < 0 {
            -1
        } else {
            r + 1
        }
    }
}

/// A line without its `\r` when it ended in `\r\n`.
pub open spec fn strip_cr(line: Seq<char>) -> Seq<char> {
    if line.len() > 0 && line.last() == '\r' {
        line.drop_last()
    } else {
        line
    }
}

/// The lines of `s` as `str::lines` yields them: split at `\n` (dropping a `\r`
/// just before it), with no empty line after a final `\n`.
pub open spec fn text_lines(s: Seq<char>) -> Seq<Seq<char>>
    decreases s.len(),
{
    if s.len() == 0 {
        seq![]
    } else {
        let k = first_index(s, '\n');
        if k < 0 {
            seq![s]
        } else {
            proof {
                lemma_first_index_bounds(s, '\n');
            }
            seq![strip_cr(s.take(k))] + text_lines(s.skip(k + 1))
        }
    }
}

pub proof fn lemma_first_index_bounds(s: Seq<char>, c: char)
    ensures
        -1 <= first_index(s, c) < s.len(),
        first_index(s, c) >= 0 ==> s[first_index(s, c)] == c,
        forall|j: int| 0 <= j < s.len() && (first_index(s, c) < 0 || j < first_index(s, c)) ==> s[j] != c,
    decreases s.len(),
{
    if s.len() > 0 && s[0] != c {
        let t = s.subrange(1, s.len() as int);
        lemma_first_index_bounds(t, c);
        assert forall|j: int| 0 <= j < s.len() && (first_index(s, c) < 0 || j < first_index(s, c)) implies s[j] != c by {
            if j > 0 {
                assert(s[j] == t[j - 1]);
            }
        }
    }
}

/// `parts` joined with a `\n` between each two.
pub open spec fn joined_lines(parts: Seq<Seq<char>>) -> Seq<char>
    decreases parts.len(),
{
    if parts.len() == 0 {
        seq![]
    } else if parts.len() == 1 {
        parts[0]
    } else {
        joined_lines(parts.drop_last()) + seq!['\n'] + parts.last()
    }
}

/// The view of an optional string.
pub open spec fn opt_view(o: Option<String>) -> Option<Seq<char>> {
    match o {
        Some(s) => Some(s@),
        None => None,
    }
}

/// The views of a sequence of strings.
pub open spec fn string_views(parts: Seq<String>) -> Seq<Seq<char>> {
    parts.map_values(|p: String| p@)
}

pub proof fn lemma_string_views_push(parts: Seq<String>, x: String)
    ensures
        string_views(parts.push(x)) == string_views(parts).push(x@),
{
    assert(string_views(parts.push(x)) =~= string_views(parts).push(x@));
}

/// Joins `parts` with `\n` between each two.
pub fn join_lines(parts: &Vec<String>) -> (r: String)
    ensures
        r@ == joined_lines(string_views(parts@)),
{
    let ghost views = string_views(parts@);
    let mut out = String::new();
    let mut i: usize = 0;
    while i < parts.len()
        invariant
            i <= parts.len(),
            views == string_views(parts@),
            out@ == joined_lines(views.take(i as int)),
        decreases parts.len() - i,
    {
        assert(views.take(i + 1).drop_last() =~= views.take(i as int));
        if i > 0 {
            push_char(&mut out, '\n');
        }
        out.append(parts[i].as_str());
        assert(out@ =~= joined_lines(views.take(i + 1)));
        i += 1;
    }
    assert(views.take(parts.len() as int) =~= views);
    out
}

/// The lines of `s` (see `text_lines`).
pub fn split_lines(s: &str) -> (r: Vec<String>)
    ensures
        string_views(r@) == text_lines(s@),
{
    let cs = chars_of(s);
    let mut out: Vec<String> = Vec::new();
    let mut start: usize = 0;
    assert(cs@.skip(0) =~= cs@);
    while start < cs.len()
        invariant
            start <= cs.len(),
            cs@ == s@,
            text_lines(s@) == string_views(out@) + text_lines(cs@.skip(start as int)),
        decreases cs.len() - start,
    {
        let ghost rest = cs@.skip(start as int);
        proof {
            lemma_first_index_bounds(rest, '\n');
        }
        let mut end = start;
        while end < cs.len() && cs[end] != '\n'
            invariant
                start <= end <= cs.len(),
                rest == cs@.skip(start as int),
                forall|j: int| start <= j < end ==> cs@[j] != '\n',
            decreases cs.len() - end,
        {
            end += 1;
        }
        proof {
            lemma_first_index_exact(rest, '\n', (end - start) as int);
        }
        let line_end = if end > start && cs[end - 1] == '\r' && end < cs.len() {
            end - 1
        } else {
            end
        };
        let line = string_from_range(&cs, start, line_end);
        let ghost before = out@;
        out.push(line);
        if end < cs.len() {
            proof {
                assert(rest.take((end - start) as int) =~= cs@.subrange(start as int, end as int));
                assert(strip_cr(cs@.subrange(start as int, end as int)) =~= cs@.subrange(start as int, line_end as int));
                assert(rest.skip((end - start) + 1) =~= cs@.skip(end + 1));
                assert(string_views(out@) =~= string_views(before) + seq![line@]);
            }
            start = end + 1;
        } else {
            proof {
                assert(rest =~= cs@.subrange(start as int, end as int));
                assert(cs@.skip(end as int) =~= Seq::<char>::empty());
                assert(string_views(out@) =~= string_views(before) + seq![line@]);
            }
            start = end;
        }
    }
    assert(cs@.skip(start as int) =~= Seq::<char>::empty());
    assert(string_views(out@) =~= string_views(out@) + text_lines(Seq::<char>::empty()));
    out
}

proof fn lemma_first_index_exact(s: Seq<char>, c: char, k: int)
    requires
        0 <= k <= s.len(),
        forall|j: int| 0 <= j < k ==> s[j] != c,
        k < s.len() ==> s[k] == c,
    ensures
        k < s.len() ==> first_index(s, c) == k,
        k == s.len() ==> first_index(s, c) == -1,
    decreases k,
{
    if k > 0 {
        lemma_first_index_exact(s.subrange(1, s.len() as int), c, k - 1);
    }
}

} // verus!
