//! Paths as sequences of components, their truncation to a group key, and the
//! component-wise byte order that paths are sorted by.
use vstd::prelude::*;
use vstd::utf8::encode_utf8;

verus! {

/// What a path's components hold, as character sequences.
pub open spec fn path_view(p: Seq<String>) -> Seq<Seq<char>> {
    p.map_values(|s: String| s@)
}

/// The first `depth` components of `p` (all of them when there are fewer, or
/// when no depth is given).
pub open spec fn truncated(p: Seq<Seq<char>>, depth: Option<usize>) -> Seq<Seq<char>> {
    match depth {
        None => p,
        Some(d) => if d < p.len() {
            p.take(d as int)
        } else {
            p
        },
    }
}

/// `p` begins with the components of `prefix`.
pub open spec fn has_prefix(p: Seq<Seq<char>>, prefix: Seq<Seq<char>>) -> bool {
    prefix.len() <= p.len() && p.take(prefix.len() as int) == prefix
}

/// Lexicographic order on sequences, from position `i` on, for an order `lt`
/// on their elements; a proper prefix comes first.
pub open spec fn lex_from<T>(a: Seq<T>, b: Seq<T>, lt: spec_fn(T, T) -> bool, i: int) -> bool
    decreases a.len() - i,
{
    if i < 0 || i >= a.len() {
        0 <= i < b.len()
    } else if i >= b.len() {
        false
    } else if a[i] != b[i] {
        lt(a[i], b[i])
    } else {
        lex_from(a, b, lt, i + 1)
    }
}

pub open spec fn byte_order() -> spec_fn(u8, u8) -> bool {
    |x: u8, y: u8| x < y
}

/// Components are ordered by their UTF-8 bytes.
pub open spec fn component_lt(x: Seq<char>, y: Seq<char>) -> bool {
    lex_from(encode_utf8(x), encode_utf8(y), byte_order(), 0)
}

pub open spec fn component_order() -> spec_fn(Seq<char>, Seq<char>) -> bool {
    |x: Seq<char>, y: Seq<char>| component_lt(x, y)
}

/// Paths are ordered component by component.
pub open spec fn path_lt(a: Seq<Seq<char>>, b: Seq<Seq<char>>) -> bool {
    lex_from(a, b, component_order(), 0)
}

pub open spec fn path_order() -> spec_fn(Seq<Seq<char>>, Seq<Seq<char>>) -> bool {
    |a: Seq<Seq<char>>, b: Seq<Seq<char>>| lex_from(a, b, component_order(), 0)
}

/// A copy of the path `p`.
pub fn clone_path(p: &Vec<String>) -> (r: Vec<String>)
    ensures
        r@ == p@,
        path_view(r@) == path_view(p@),
{
    let mut r: Vec<String> = Vec::new();
    let mut i: usize = 0;
    while i < p.len()
        invariant
            i <= p@.len(),
            r@ == p@.take(i as int),
        decreases p@.len() - i,
    {
        let c = p[i].clone();
        assert(c@ == p@[i as int]@);
        r.push(c);
        i += 1;
        assert(r@ =~= p@.take(i as int));
    }
    assert(p@.take(p@.len() as int) =~= p@);
    r
}

/// The components of `p` from position `start` on.
pub fn path_slice(p: &Vec<String>, start: usize, end: usize) -> (r: Vec<String>)
    requires
        start <= end <= p@.len(),
    ensures
        path_view(r@) == path_view(p@).subrange(start as int, end as int),
{
    let mut r: Vec<String> = Vec::new();
    let mut i: usize = start;
    while i < end
        invariant
            start <= i <= end <= p@.len(),
            r@ == p@.subrange(start as int, i as int),
        decreases end - i,
    {
        let c = p[i].clone();
        assert(c@ == p@[i as int]@);
        r.push(c);
        i += 1;
        assert(r@ =~= p@.subrange(start as int, i as int));
    }
    assert(path_view(r@) =~= path_view(p@).subrange(start as int, end as int));
    r
}

/// The first `depth` components of `p`, or all of them.
pub fn truncate_path(p: &Vec<String>, depth: Option<usize>) -> (r: Vec<String>)
    ensures
        path_view(r@) == truncated(path_view(p@), depth),
{
    let end = match depth {
        Some(d) if d < p.len() => d,
        _ => p.len(),
    };
    let r = path_slice(p, 0, end);
    assert(path_view(p@).subrange(0, p@.len() as int) =~= path_view(p@));
    r
}

/// `a` followed by the components of `b`.
pub fn join_paths(a: &Vec<String>, b: &Vec<String>) -> (r: Vec<String>)
    ensures
        path_view(r@) == path_view(a@) + path_view(b@),
{
    let mut r = clone_path(a);
    let mut i: usize = 0;
    while i < b.len()
        invariant
            i <= b@.len(),
            r@ == a@ + b@.take(i as int),
        decreases b@.len() - i,
    {
        let c = b[i].clone();
        assert(c@ == b@[i as int]@);
        r.push(c);
        i += 1;
        assert(r@ =~= a@ + b@.take(i as int));
    }
    assert(b@.take(b@.len() as int) =~= b@);
    assert(path_view(r@) =~= path_view(a@) + path_view(b@));
    r
}

/// Whether the components of `a` and `b` agree at positions `start` up to `end`.
fn same_components(a: &Vec<String>, b: &Vec<String>, end: usize) -> (r: bool)
    requires
        end <= a@.len(),
        end <= b@.len(),
    ensures
        r == (path_view(a@).take(end as int) == path_view(b@).take(end as int)),
{
    let mut i: usize = 0;
    while i < end
        invariant
            i <= end <= a@.len(),
            end <= b@.len(),
            path_view(a@).take(i as int) == path_view(b@).take(i as int),
        decreases end - i,
    {
        if a[i] != b[i] {
            assert(path_view(a@).take(end as int)[i as int] != path_view(b@).take(end as int)[i as int]);
            return false;
        }
        i += 1;
        assert(path_view(a@).take(i as int) =~= path_view(b@).take(i as int));
    }
    true
}

/// Whether two paths are equal.
pub fn paths_equal(a: &Vec<String>, b: &Vec<String>) -> (r: bool)
    ensures
        r == (path_view(a@) == path_view(b@)),
{
    if a.len() != b.len() {
        assert(path_view(a@).len() != path_view(b@).len());
        return false;
    }
    let r = same_components(a, b, a.len());
    assert(path_view(a@).take(a@.len() as int) =~= path_view(a@));
    assert(path_view(b@).take(b@.len() as int) =~= path_view(b@));
    r
}

/// Whether `p` begins with the components of `prefix`.
pub fn starts_with(p: &Vec<String>, prefix: &Vec<String>) -> (r: bool)
    ensures
        r == has_prefix(path_view(p@), path_view(prefix@)),
{
    if prefix.len() > p.len() {
        return false;
    }
    let r = same_components(p, prefix, prefix.len());
    assert(path_view(prefix@).take(prefix@.len() as int) =~= path_view(prefix@));
    r
}

/// Whether two paths fall in one group: equal, or equal in their first
/// `depth` components when a depth is given.
pub fn is_equivalent_path(a: &Vec<String>, b: &Vec<String>, depth: Option<usize>) -> (r: bool)
    ensures
        r == (truncated(path_view(a@), depth) == truncated(path_view(b@), depth)),
{
    let ta = truncate_path(a, depth);
    let tb = truncate_path(b, depth);
    paths_equal(&ta, &tb)
}

/// Whether component `x` comes before component `y` in byte order.
pub fn component_less(x: &String, y: &String) -> (r: bool)
    ensures
        r == component_lt(x@, y@),
{
    let xb = x.as_str().as_bytes();
    let yb = y.as_str().as_bytes();
    let mut i: usize = 0;
    while i < xb.len() && i < yb.len() && xb[i] == yb[i]
        invariant
            i <= xb@.len(),
            i <= yb@.len(),
            xb@ == encode_utf8(x@),
            yb@ == encode_utf8(y@),
            lex_from(xb@, yb@, byte_order(), 0) == lex_from(xb@, yb@, byte_order(), i as int),
        decreases xb@.len() - i,
    {
        i += 1;
    }
    if i < xb.len() && i < yb.len() {
        xb[i] < yb[i]
    } else {
        i == xb.len() && i < yb.len()
    }
}

/// Whether path `a` comes before path `b`, component by component.
pub fn path_less(a: &Vec<String>, b: &Vec<String>) -> (r: bool)
    ensures
        r == path_lt(path_view(a@), path_view(b@)),
{
    let ghost av = path_view(a@);
    let ghost bv = path_view(b@);
    let mut i: usize = 0;
    while i < a.len() && i < b.len() && a[i] == b[i]
        invariant
            i <= a@.len(),
            i <= b@.len(),
            av == path_view(a@),
            bv == path_view(b@),
            lex_from(av, bv, component_order(), 0) == lex_from(av, bv, component_order(), i as int),
        decreases a@.len() - i,
    {
        i += 1;
    }
    if i < a.len() && i < b.len() {
        component_less(&a[i], &b[i])
    } else {
        i == a.len() && i < b.len()
    }
}

pub open spec fn is_strict_total<T>(lt: spec_fn(T, T) -> bool) -> bool {
    &&& forall|x: T| !#[trigger] lt(x, x)
    &&& forall|x: T, y: T, z: T| #[trigger] lt(x, y) && #[trigger] lt(y, z) ==> lt(x, z)
    &&& forall|x: T, y: T| x != y ==> #[trigger] lt(x, y) || #[trigger] lt(y, x)
}

proof fn lemma_lex_irreflexive<T>(a: Seq<T>, lt: spec_fn(T, T) -> bool, i: int)
    requires
        0 <= i,
    ensures
        !lex_from(a, a, lt, i),
    decreases a.len() - i,
{
    if i < a.len() {
        lemma_lex_irreflexive(a, lt, i + 1);
    }
}

proof fn lemma_lex_transitive<T>(
    a: Seq<T>,
    b: Seq<T>,
    c: Seq<T>,
    lt: spec_fn(T, T) -> bool,
    i: int,
)
    requires
        0 <= i,
        is_strict_total(lt),
        lex_from(a, b, lt, i),
        lex_from(b, c, lt, i),
    ensures
        lex_from(a, c, lt, i),
    decreases a.len() - i,
{
    if i < a.len() && i < b.len() && i < c.len() && a[i] == b[i] && b[i] == c[i] {
        lemma_lex_transitive(a, b, c, lt, i + 1);
    } else if i < a.len() && i < b.len() && i < c.len() {
        if a[i] != b[i] && b[i] != c[i] {
            assert(lt(a[i], b[i]) && lt(b[i], c[i]));
            if a[i] == c[i] {
                assert(lt(a[i], a[i]));
            }
        }
    }
}

proof fn lemma_lex_total<T>(a: Seq<T>, b: Seq<T>, lt: spec_fn(T, T) -> bool, i: int)
    requires
        0 <= i <= a.len(),
        i <= b.len(),
        is_strict_total(lt),
        !lex_from(a, b, lt, i),
        !lex_from(b, a, lt, i),
    ensures
        a.len() == b.len(),
        forall|j: int| i <= j < a.len() ==> a[j] == b[j],
    decreases a.len() - i,
{
    if i < a.len() && i < b.len() {
        if a[i] == b[i] {
            lemma_lex_total(a, b, lt, i + 1);
        }
    }
}

/// Lexicographic order over a strict total order is a strict total order.
pub proof fn lemma_lex_strict_total<T>(lt: spec_fn(T, T) -> bool)
    requires
        is_strict_total(lt),
    ensures
        is_strict_total(|a: Seq<T>, b: Seq<T>| lex_from(a, b, lt, 0)),
{
    let l = |a: Seq<T>, b: Seq<T>| lex_from(a, b, lt, 0);
    assert forall|x: Seq<T>| !#[trigger] l(x, x) by {
        lemma_lex_irreflexive(x, lt, 0);
    }
    assert forall|x: Seq<T>, y: Seq<T>, z: Seq<T>| #[trigger] l(x, y) && #[trigger] l(y, z) implies l(
        x,
        z,
    ) by {
        lemma_lex_transitive(x, y, z, lt, 0);
    }
    assert forall|x: Seq<T>, y: Seq<T>| x != y implies #[trigger] l(x, y) || #[trigger] l(y, x) by {
        if !l(x, y) && !l(y, x) {
            lemma_lex_total(x, y, lt, 0);
            assert(x =~= y);
        }
    }
}

/// The order on paths is a strict total order.
pub proof fn lemma_path_lt_strict_total()
    ensures
        is_strict_total(path_order()),
        forall|a: Seq<Seq<char>>, b: Seq<Seq<char>>| #[trigger] path_lt(a, b) == path_order()(a, b),
{
    let bl = byte_order();
    assert(is_strict_total(bl));
    lemma_lex_strict_total(bl);
    let cl = component_order();
    assert forall|x: Seq<char>, y: Seq<char>, z: Seq<char>| #[trigger] cl(x, y) && #[trigger] cl(
        y,
        z,
    ) implies cl(x, z) by {
        let l = |a: Seq<u8>, b: Seq<u8>| lex_from(a, b, bl, 0);
        assert(l(encode_utf8(x), encode_utf8(y)) && l(encode_utf8(y), encode_utf8(z)));
    }
    assert forall|x: Seq<char>, y: Seq<char>| x != y implies #[trigger] cl(x, y) || #[trigger] cl(
        y,
        x,
    ) by {
        vstd::utf8::encode_utf8_decode_utf8(x);
        vstd::utf8::encode_utf8_decode_utf8(y);
        let l = |a: Seq<u8>, b: Seq<u8>| lex_from(a, b, bl, 0);
        assert(encode_utf8(x) != encode_utf8(y));
        assert(l(encode_utf8(x), encode_utf8(y)) || l(encode_utf8(y), encode_utf8(x)));
    }
    assert forall|x: Seq<char>| !#[trigger] cl(x, x) by {
        lemma_lex_irreflexive(encode_utf8(x), bl, 0);
    }
    assert(is_strict_total(cl));
    lemma_lex_strict_total(cl);
}

} // verus!
