//! Delimited text: the splitting and joining that every wire and file format
//! of the server is built from.
use vstd::prelude::*;

verus! {

/// The delimiter between the fields of a handshake and of a rule's key/value pair.
pub open spec fn delim_1() -> Seq<char> {
    "[:1:]"@
}

/// The delimiter between the key/value pairs of a rule line and the fields of an event line.
pub open spec fn delim_2() -> Seq<char> {
    "[:2:]"@
}

/// The delimiter between the fields of an event report.
pub open spec fn delim_3() -> Seq<char> {
    "[:3:]"@
}

/// The delimiter between the fields of a user record and of an audit line.
pub open spec fn delim_bar() -> Seq<char> {
    "[:|:]"@
}

/// The line break that ends every record of a file.
pub open spec fn newline() -> Seq<char> {
    "\n"@
}

/// No two occurrences of a delimiter can overlap.
pub proof fn lemma_delims_head_unique()
    ensures
        head_unique(delim_1()),
        head_unique(delim_2()),
        head_unique(delim_3()),
        head_unique(delim_bar()),
        head_unique(newline()),
{
    reveal_strlit("[:1:]");
    reveal_strlit("[:2:]");
    reveal_strlit("[:3:]");
    reveal_strlit("[:|:]");
    reveal_strlit("\n");
}

/// `d` occurs in `s` starting at position `i`.
pub open spec fn occurs_at(s: Seq<char>, d: Seq<char>, i: int) -> bool {
    0 <= i && i + d.len() <= s.len() && s.subrange(i, i + d.len()) == d
}

/// `d` occurs somewhere in `s`.
pub open spec fn has_sub(s: Seq<char>, d: Seq<char>) -> bool {
    exists|i: int| occurs_at(s, d, i)
}

/// The first character of `d` occurs nowhere else in it, so two occurrences of
/// `d` can never overlap.
pub open spec fn head_unique(d: Seq<char>) -> bool {
    d.len() > 0 && forall|k: int| 0 < k < d.len() ==> #[trigger] d[k] != d[0]
}

/// The pieces of `s` between occurrences of `d`, scanning from position `i`,
/// the current piece having started at `start`.
pub open spec fn split_scan(s: Seq<char>, d: Seq<char>, start: int, i: int) -> Seq<Seq<char>>
    decreases s.len() - i,
{
    if d.len() == 0 || i < 0 || i + d.len() > s.len() {
        seq![s.subrange(start, s.len() as int)]
    } else if occurs_at(s, d, i) {
        seq![s.subrange(start, i)] + split_scan(s, d, i + d.len(), i + d.len())
    } else {
        split_scan(s, d, start, i + 1)
    }
}

/// `s` cut at each occurrence of `d`, leftmost first; the delimiters are dropped.
pub open spec fn split_spec(s: Seq<char>, d: Seq<char>) -> Seq<Seq<char>> {
    split_scan(s, d, 0, 0)
}

/// The pieces of `ps` with `d` between each two of them.
pub open spec fn join_spec(ps: Seq<Seq<char>>, d: Seq<char>) -> Seq<char>
    decreases ps.len(),
{
    if ps.len() == 0 {
        Seq::empty()
    } else if ps.len() == 1 {
        ps[0]
    } else {
        join_spec(ps.drop_last(), d) + d + ps.last()
    }
}

/// The character sequences that a vector of strings holds.
pub open spec fn views(v: Seq<String>) -> Seq<Seq<char>> {
    v.map_values(|s: String| s@)
}

/// No piece of `ps` contains `d`.
pub open spec fn all_free_of(ps: Seq<Seq<char>>, d: Seq<char>) -> bool {
    forall|k: int| 0 <= k < ps.len() ==> !has_sub(#[trigger] ps[k], d)
}

proof fn lemma_scan_shift(p: Seq<char>, y: Seq<char>, d: Seq<char>, a: int, b: int)
    requires
        0 <= a <= b <= y.len(),
    ensures
        split_scan(p + y, d, p.len() + a, p.len() + b) == split_scan(y, d, a, b),
    decreases y.len() - b,
{
    let s = p + y;
    if d.len() == 0 || b + d.len() > y.len() {
        assert(s.subrange(p.len() + a, s.len() as int) =~= y.subrange(a, y.len() as int));
    } else {
        assert(s.subrange(p.len() + b, p.len() + b + d.len()) =~= y.subrange(b, b + d.len()));
        if occurs_at(y, d, b) {
            assert(s.subrange(p.len() + a, p.len() + b) =~= y.subrange(a, b));
            lemma_scan_shift(p, y, d, b + d.len(), b + d.len());
        } else {
            lemma_scan_shift(p, y, d, a, b + 1);
        }
    }
}

proof fn lemma_scan_free(x: Seq<char>, d: Seq<char>, i: int)
    requires
        0 <= i,
        !has_sub(x, d),
    ensures
        split_scan(x, d, 0, i) == seq![x],
    decreases x.len() - i,
{
    assert(x.subrange(0, x.len() as int) =~= x);
    if d.len() == 0 || i + d.len() > x.len() {
    } else {
        assert(!occurs_at(x, d, i));
        lemma_scan_free(x, d, i + 1);
    }
}

proof fn lemma_scan_tail(a: Seq<char>, d: Seq<char>, b: Seq<char>, st: int, i: int)
    requires
        0 <= st <= a.len(),
        0 <= i <= a.len(),
        i + d.len() > a.len(),
        head_unique(d),
    ensures
        split_scan(a + d + b, d, st, i) == seq![a.subrange(st, a.len() as int)] + split_spec(b, d),
    decreases a.len() - i,
{
    let s = a + d + b;
    let p = a + d;
    assert(s =~= p + b);
    if i == a.len() {
        assert(s.subrange(i, i + d.len()) =~= d);
        assert(s.subrange(st, i) =~= a.subrange(st, a.len() as int));
        lemma_scan_shift(p, b, d, 0, 0);
    } else {
        if occurs_at(s, d, i) {
            let k = a.len() - i;
            assert(s.subrange(i, i + d.len())[k] == s[a.len() as int]);
            assert(s[a.len() as int] == d[0]);
        }
        lemma_scan_tail(a, d, b, st, i + 1);
    }
}

proof fn lemma_scan_concat(a: Seq<char>, d: Seq<char>, b: Seq<char>, st: int, i: int)
    requires
        0 <= st <= i <= a.len(),
        head_unique(d),
    ensures
        split_scan(a + d + b, d, st, i) == split_scan(a, d, st, i) + split_spec(b, d),
    decreases a.len() - i,
{
    let s = a + d + b;
    if i + d.len() > a.len() {
        lemma_scan_tail(a, d, b, st, i);
    } else {
        assert(s.subrange(i, i + d.len()) =~= a.subrange(i, i + d.len()));
        if occurs_at(a, d, i) {
            assert(s.subrange(st, i) =~= a.subrange(st, i));
            lemma_scan_concat(a, d, b, i + d.len(), i + d.len());
            assert(seq![a.subrange(st, i)] + split_scan(a, d, i + d.len(), i + d.len())
                + split_spec(b, d) =~= seq![a.subrange(st, i)] + (split_scan(
                a,
                d,
                i + d.len(),
                i + d.len(),
            ) + split_spec(b, d)));
        } else {
            lemma_scan_concat(a, d, b, st, i + 1);
        }
    }
}

/// Splitting at a delimiter that stands between two texts splits each of them.
pub proof fn lemma_split_concat(a: Seq<char>, d: Seq<char>, b: Seq<char>)
    requires
        head_unique(d),
    ensures
        split_spec(a + d + b, d) == split_spec(a, d) + split_spec(b, d),
{
    lemma_scan_concat(a, d, b, 0, 0);
}

/// A text free of the delimiter is a single piece.
pub proof fn lemma_split_free(x: Seq<char>, d: Seq<char>)
    requires
        !has_sub(x, d),
    ensures
        split_spec(x, d) == seq![x],
{
    lemma_scan_free(x, d, 0);
}

/// Splitting what `join_spec` built gives the pieces back.
pub proof fn lemma_split_join(ps: Seq<Seq<char>>, d: Seq<char>)
    requires
        ps.len() >= 1,
        head_unique(d),
        all_free_of(ps, d),
    ensures
        split_spec(join_spec(ps, d), d) == ps,
    decreases ps.len(),
{
    if ps.len() == 1 {
        lemma_scan_free(ps[0], d, 0);
        assert(seq![ps[0]] =~= ps);
    } else {
        let rest = ps.drop_first();
        assert(all_free_of(rest, d)) by {
            assert forall|k: int| 0 <= k < rest.len() implies !has_sub(#[trigger] rest[k], d) by {
                assert(rest[k] == ps[k + 1]);
            }
        }
        lemma_join_front(ps, d);
        lemma_split_join(rest, d);
        assert(!has_sub(ps[0], d));
        lemma_scan_free(ps[0], d, 0);
        lemma_split_concat(ps[0], d, join_spec(rest, d));
        assert(seq![ps[0]] + rest =~= ps);
    }
}

/// `join_spec` seen from the front.
pub proof fn lemma_join_front(ps: Seq<Seq<char>>, d: Seq<char>)
    requires
        ps.len() >= 2,
    ensures
        join_spec(ps, d) == ps[0] + d + join_spec(ps.drop_first(), d),
    decreases ps.len(),
{
    if ps.len() == 2 {
        assert(ps.drop_last() =~= seq![ps[0]]);
        assert(ps.drop_first() =~= seq![ps[1]]);
        assert(join_spec(ps.drop_last(), d) == ps[0]);
        assert(join_spec(ps.drop_first(), d) == ps[1]);
    } else {
        let init = ps.drop_last();
        lemma_join_front(init, d);
        assert(init.drop_first() =~= ps.drop_first().drop_last());
        assert(ps.drop_first().last() == ps.last());
        assert(join_spec(ps.drop_first(), d) == join_spec(ps.drop_first().drop_last(), d) + d
            + ps.drop_first().last());
        assert(ps[0] + d + join_spec(ps.drop_first(), d) =~= ps[0] + d + join_spec(
            init.drop_first(),
            d,
        ) + d + ps.last());
    }
}

/// Relies on `Iterator::collect` over `str::chars`: the characters of the string, in order.
#[verifier::external_body]
pub(crate) fn chars_of(s: &str) -> (r: Vec<char>)
    ensures
        r@ == s@,
{
    s.chars().collect()
}

/// Relies on `Iterator::collect` into `String`: a string of exactly these characters.
#[verifier::external_body]
pub(crate) fn string_of(cs: &[char]) -> (r: String)
    ensures
        r@ == cs@,
{
    cs.iter().collect()
}

/// The characters of `s` from `a` up to `b`.
pub(crate) fn slice_string(s: &[char], a: usize, b: usize) -> (r: String)
    requires
        a <= b <= s@.len(),
    ensures
        r@ == s@.subrange(a as int, b as int),
{
    let mut v: Vec<char> = Vec::new();
    let mut k: usize = a;
    while k < b
        invariant
            a <= k <= b <= s@.len(),
            v@ == s@.subrange(a as int, k as int),
        decreases b - k,
    {
        v.push(s[k]);
        assert(v@ =~= s@.subrange(a as int, k + 1));
        k = k + 1;
    }
    string_of(v.as_slice())
}

/// Whether `d` occurs in `s` at position `i`.
pub(crate) fn occurs_at_exec(s: &[char], d: &[char], i: usize) -> (r: bool)
    ensures
        r == occurs_at(s@, d@, i as int),
{
    if i > s.len() || d.len() > s.len() - i {
        return false;
    }
    let n = s.len();
    let mut k: usize = 0;
    while k < d.len()
        invariant
            n == s@.len(),
            i + d@.len() <= s@.len(),
            k <= d@.len(),
            forall|j: int| 0 <= j < k ==> s@[i + j] == d@[j],
        decreases d@.len() - k,
    {
        assert(i + k < s@.len());
        if s[i + k] != d[k] {
            assert(s@.subrange(i as int, i + d@.len())[k as int] != d@[k as int]);
            return false;
        }
        k = k + 1;
    }
    assert(s@.subrange(i as int, i + d@.len()) =~= d@);
    true
}

/// Cuts `s` at each occurrence of `d`, leftmost first, dropping the delimiters.
pub fn split_on(s: &str, d: &str) -> (r: Vec<String>)
    requires
        d@.len() > 0,
    ensures
        views(r@) == split_spec(s@, d@),
{
    let cs = chars_of(s);
    let ds = chars_of(d);
    split_chars(cs.as_slice(), ds.as_slice())
}

/// `split_on` over characters already taken out of a string.
pub(crate) fn split_chars(cs: &[char], ds: &[char]) -> (r: Vec<String>)
    requires
        ds@.len() > 0,
    ensures
        views(r@) == split_spec(cs@, ds@),
{
    let n = cs.len();
    let dl = ds.len();
    let mut out: Vec<String> = Vec::new();
    let mut start: usize = 0;
    let mut i: usize = 0;
    while i <= n && dl <= n - i
        invariant
            n == cs@.len(),
            dl == ds@.len(),
            dl > 0,
            start <= i <= n,
            views(out@) + split_scan(cs@, ds@, start as int, i as int) == split_spec(cs@, ds@),
        decreases n - i,
    {
        if occurs_at_exec(cs, ds, i) {
            let piece = slice_string(cs, start, i);
            let ghost before = out@;
            out.push(piece);
            assert(views(out@) =~= views(before) + seq![piece@]);
            start = i + dl;
            i = i + dl;
        } else {
            i = i + 1;
        }
    }
    let piece = slice_string(cs, start, n);
    let ghost before = out@;
    out.push(piece);
    assert(views(out@) =~= views(before) + seq![piece@]);
    out
}

/// The strings of `parts` with `d` between each two of them.
pub fn join_with(parts: &Vec<String>, d: &str) -> (r: String)
    ensures
        r@ == join_spec(views(parts@), d@),
{
    let mut r = String::new();
    let mut i: usize = 0;
    while i < parts.len()
        invariant
            i <= parts@.len(),
            r@ == join_spec(views(parts@.subrange(0, i as int)), d@),
        decreases parts@.len() - i,
    {
        let ghost prev = views(parts@.subrange(0, i as int));
        let ghost next = views(parts@.subrange(0, i + 1));
        assert(next.drop_last() =~= prev);
        if i > 0 {
            r.append(d);
        } else {
            assert(r@ + parts@[0]@ =~= parts@[0]@);
        }
        r.append(parts[i].as_str());
        i = i + 1;
    }
    assert(parts@.subrange(0, parts@.len() as int) =~= parts@);
    r
}

/// The two characters that open every delimiter.
pub open spec fn opener() -> Seq<char> {
    "[:"@
}

/// A text that can stand as one field of any record: it holds no line break
/// and never the two characters that open a delimiter.
pub open spec fn field_safe(t: Seq<char>) -> bool {
    !has_sub(t, opener()) && !has_sub(t, newline())
}

proof fn lemma_no_delim(t: Seq<char>, d: Seq<char>)
    requires
        !has_sub(t, opener()),
        d.len() >= 2,
        d[0] == '[',
        d[1] == ':',
    ensures
        !has_sub(t, d),
{
    reveal_strlit("[:");
    if has_sub(t, d) {
        let i = choose|i: int| occurs_at(t, d, i);
        assert(t.subrange(i, i + d.len())[0] == t[i]);
        assert(t.subrange(i, i + d.len())[1] == t[i + 1]);
        assert(t.subrange(i, i + 2) =~= opener());
        assert(occurs_at(t, opener(), i));
    }
}

/// A safe field holds none of the delimiters.
pub proof fn lemma_safe_free(t: Seq<char>)
    requires
        field_safe(t),
    ensures
        !has_sub(t, delim_1()),
        !has_sub(t, delim_2()),
        !has_sub(t, delim_3()),
        !has_sub(t, delim_bar()),
        !has_sub(t, newline()),
{
    reveal_strlit("[:1:]");
    reveal_strlit("[:2:]");
    reveal_strlit("[:3:]");
    reveal_strlit("[:|:]");
    lemma_no_delim(t, delim_1());
    lemma_no_delim(t, delim_2());
    lemma_no_delim(t, delim_3());
    lemma_no_delim(t, delim_bar());
}

/// Two texts without a line break make one without a line break.
pub proof fn lemma_no_newline_concat(a: Seq<char>, b: Seq<char>)
    requires
        !has_sub(a, newline()),
        !has_sub(b, newline()),
    ensures
        !has_sub(a + b, newline()),
{
    reveal_strlit("\n");
    if has_sub(a + b, newline()) {
        let i = choose|i: int| occurs_at(a + b, newline(), i);
        assert((a + b).subrange(i, i + 1)[0] == (a + b)[i]);
        if i < a.len() {
            assert(a.subrange(i, i + 1) =~= newline());
            assert(occurs_at(a, newline(), i));
        } else {
            assert(b.subrange(i - a.len(), i - a.len() + 1) =~= newline());
            assert(occurs_at(b, newline(), i - a.len()));
        }
    }
}

/// The delimiters hold no line break.
pub proof fn lemma_delims_one_line()
    ensures
        !has_sub(delim_1(), newline()),
        !has_sub(delim_2(), newline()),
        !has_sub(delim_3(), newline()),
        !has_sub(delim_bar(), newline()),
{
    reveal_strlit("[:1:]");
    reveal_strlit("[:2:]");
    reveal_strlit("[:3:]");
    reveal_strlit("[:|:]");
    reveal_strlit("\n");
    assert forall|d: Seq<char>, i: int|
        d.len() == 5 && d[0] == '[' && d[1] == ':' && d[3] == ':' && d[4] == ']' && d[2] != '\n'
            implies !#[trigger] occurs_at(d, newline(), i) by {
        if occurs_at(d, newline(), i) {
            assert(d.subrange(i, i + 1)[0] == d[i]);
        }
    }
}

/// A key and a value joined by the pair delimiter hold no pair separator and no line break.
pub proof fn lemma_pair_free(k: Seq<char>, v: Seq<char>)
    requires
        field_safe(k),
        field_safe(v),
    ensures
        !has_sub(k + delim_1() + v, delim_2()),
        !has_sub(k + delim_1() + v, newline()),
{
    reveal_strlit("[:1:]");
    reveal_strlit("[:2:]");
    reveal_strlit("[:");
    lemma_delims_one_line();
    lemma_no_newline_concat(k, delim_1());
    lemma_no_newline_concat(k + delim_1(), v);
    let s = k + delim_1() + v;
    let d = delim_2();
    if has_sub(s, d) {
        let j = choose|j: int| occurs_at(s, d, j);
        assert(s.subrange(j, j + 5)[0] == s[j]);
        assert(s.subrange(j, j + 5)[1] == s[j + 1]);
        assert(s.subrange(j, j + 5)[2] == s[j + 2]);
        if j + 1 < k.len() {
            assert(k.subrange(j, j + 2) =~= opener());
            assert(occurs_at(k, opener(), j));
        } else if j + 1 == k.len() {
            assert(s[j + 1] == '[');
        } else if j < k.len() + 5 {
            let o = j - k.len();
            assert(s[j] == delim_1()[o]);
            if o == 0 {
                assert(s[j + 2] == '1');
            }
        } else {
            let o = j - k.len() - 5;
            assert(s[j] == v[o]);
            assert(s[j + 1] == v[o + 1]);
            assert(v.subrange(o, o + 2) =~= opener());
            assert(occurs_at(v, opener(), o));
        }
    }
}

/// Whether two strings hold the same characters.
pub fn same_text(a: &str, b: &str) -> (r: bool)
    ensures
        r == (a@ == b@),
{
    let x = chars_of(a);
    let y = chars_of(b);
    if x.len() != y.len() {
        return false;
    }
    let mut i: usize = 0;
    while i < x.len()
        invariant
            x@ == a@,
            y@ == b@,
            x@.len() == y@.len(),
            i <= x@.len(),
            forall|j: int| 0 <= j < i ==> x@[j] == y@[j],
        decreases x@.len() - i,
    {
        if x[i] != y[i] {
            return false;
        }
        i = i + 1;
    }
    assert(x@ =~= y@);
    true
}

proof fn lemma_scan_nonempty(s: Seq<char>, d: Seq<char>, st: int, i: int)
    ensures
        split_scan(s, d, st, i).len() >= 1,
    decreases s.len() - i,
{
    if d.len() == 0 || i < 0 || i + d.len() > s.len() {
    } else if occurs_at(s, d, i) {
        lemma_scan_nonempty(s, d, i + d.len(), i + d.len());
    } else {
        lemma_scan_nonempty(s, d, st, i + 1);
    }
}

proof fn lemma_join_scan(s: Seq<char>, d: Seq<char>, st: int, i: int)
    requires
        0 <= st <= i <= s.len(),
        d.len() > 0,
    ensures
        join_spec(split_scan(s, d, st, i), d) == s.subrange(st, s.len() as int),
    decreases s.len() - i,
{
    if i + d.len() > s.len() {
    } else if occurs_at(s, d, i) {
        let rest = split_scan(s, d, i + d.len(), i + d.len());
        lemma_scan_nonempty(s, d, i + d.len(), i + d.len());
        lemma_join_scan(s, d, i + d.len(), i + d.len());
        let all = seq![s.subrange(st, i)] + rest;
        assert(all.drop_first() =~= rest);
        lemma_join_front(all, d);
        assert(s.subrange(st, i) + d + s.subrange(i + d.len(), s.len() as int) =~= s.subrange(
            st,
            s.len() as int,
        ));
    } else {
        lemma_join_scan(s, d, st, i + 1);
    }
}

/// Joining the pieces of a split gives the text back.
pub proof fn lemma_join_split(s: Seq<char>, d: Seq<char>)
    requires
        d.len() > 0,
    ensures
        join_spec(split_spec(s, d), d) == s,
        split_spec(s, d).len() >= 1,
{
    lemma_join_scan(s, d, 0, 0);
    lemma_scan_nonempty(s, d, 0, 0);
    assert(s.subrange(0, s.len() as int) =~= s);
}

proof fn lemma_scan_pieces_free(s: Seq<char>, d: Seq<char>, st: int, i: int)
    requires
        0 <= st <= i,
        st <= s.len(),
        head_unique(d),
        forall|j: int| st <= j < i ==> !occurs_at(s, d, j),
    ensures
        all_free_of(split_scan(s, d, st, i), d),
    decreases s.len() - i,
{
    if i + d.len() > s.len() {
        let p = s.subrange(st, s.len() as int);
        if has_sub(p, d) {
            let j = choose|j: int| occurs_at(p, d, j);
            assert(p.subrange(j, j + d.len()) =~= s.subrange(st + j, st + j + d.len()));
            assert(occurs_at(s, d, st + j));
        }
        assert(split_scan(s, d, st, i)[0] == p);
    } else if occurs_at(s, d, i) {
        let p = s.subrange(st, i);
        if has_sub(p, d) {
            let j = choose|j: int| occurs_at(p, d, j);
            assert(p.subrange(j, j + d.len()) =~= s.subrange(st + j, st + j + d.len()));
            assert(occurs_at(s, d, st + j));
        }
        lemma_scan_pieces_free(s, d, i + d.len(), i + d.len());
        let all = seq![p] + split_scan(s, d, i + d.len(), i + d.len());
        assert forall|k: int| 0 <= k < all.len() implies !has_sub(#[trigger] all[k], d) by {
            if k > 0 {
                assert(all[k] == split_scan(s, d, i + d.len(), i + d.len())[k - 1]);
            }
        }
    } else {
        lemma_scan_pieces_free(s, d, st, i + 1);
    }
}

/// No piece of a split holds the delimiter.
pub proof fn lemma_split_pieces_free(s: Seq<char>, d: Seq<char>)
    requires
        head_unique(d),
    ensures
        all_free_of(split_spec(s, d), d),
{
    lemma_scan_pieces_free(s, d, 0, 0);
}

/// Pieces without a line break, joined by a delimiter without one, make a
/// text without a line break.
pub proof fn lemma_join_one_line(ps: Seq<Seq<char>>, d: Seq<char>)
    requires
        forall|k: int| 0 <= k < ps.len() ==> !has_sub(#[trigger] ps[k], newline()),
        !has_sub(d, newline()),
    ensures
        !has_sub(join_spec(ps, d), newline()),
    decreases ps.len(),
{
    if ps.len() == 0 {
        let e = Seq::<char>::empty();
        if has_sub(e, newline()) {
            let i = choose|i: int| occurs_at(e, newline(), i);
            reveal_strlit("\n");
        }
    } else if ps.len() > 1 {
        lemma_join_one_line(ps.drop_last(), d);
        lemma_no_newline_concat(join_spec(ps.drop_last(), d), d);
        lemma_no_newline_concat(join_spec(ps.drop_last(), d) + d, ps.last());
    }
}

/// A text none of whose characters is a line break holds no line break.
pub proof fn lemma_no_newline_char(t: Seq<char>)
    requires
        forall|i: int| 0 <= i < t.len() ==> #[trigger] t[i] != '\n',
    ensures
        !has_sub(t, newline()),
{
    reveal_strlit("\n");
    if has_sub(t, newline()) {
        let i = choose|i: int| occurs_at(t, newline(), i);
        assert(t.subrange(i, i + 1)[0] == t[i]);
    }
}

} // verus!
