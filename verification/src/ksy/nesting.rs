//! Why the limit on types inside one another does no harm: it refuses only what
//! no limit, however high, would let through.
use vstd::prelude::*;
#[allow(unused_imports)]
use vstd::set_lib::*;

#[allow(unused_imports)]
use crate::{
    error::ErrorModel, ksy::eval, ksy::expr::ExprModel, ksy::interp, ksy::interp::ChosenModel,
    ksy::interp::Decoded, ksy::interp::Entries, ksy::interp::FrameModel, ksy::read, ksy::schema,
    ksy::schema::Endian, ksy::schema::RepeatModel, ksy::schema::TypeModel, named,
    result::ValueModel,
};

verus! {

/// The error says that some type is inside itself.
pub open spec fn refusal(e: ErrorModel) -> bool {
    exists|name: Seq<char>| e == #[trigger] interp::inside_itself(name)
}

/// The outcome is that a type is inside itself.
pub open spec fn refused<T>(r: Result<T, ErrorModel>) -> bool {
    match r {
        Ok(_) => false,
        Err(e) => refusal(e),
    }
}

/// Decoding stops at a type inside itself.
spec fn halted<T>(r: Decoded<T>) -> bool {
    match r {
        Ok(_) => false,
        Err((e, _)) => refusal(e),
    }
}

/// The outcomes are the same, but for the type that is inside itself and the
/// place where that is met. Where `both` does not hold, only the first need be
/// such a refusal.
spec fn near<T>(x: Decoded<T>, y: Decoded<T>, both: bool) -> bool {
    x == y || (halted(x) && (both ==> halted(y)))
}

// ---------------------------------------------------------------------------
// Where a type can start
// ---------------------------------------------------------------------------

/// One definition stands directly inside the other.
pub open spec fn child(t: TypeModel, u: TypeModel) -> bool {
    exists|m: int| 0 <= m < t.types.len() && #[trigger] t.types[m].1 == u
}

/// A chain of definitions, each inside the one before, from the root inwards.
pub open spec fn linked(root: TypeModel, chain: Seq<TypeModel>) -> bool {
    &&& chain.len() > 0
    &&& chain[0] == root
    &&& forall|i: int| 0 < i < chain.len() ==> child(chain[i - 1], #[trigger] chain[i])
}

/// The chains that go through `outer` to `t` and on, with either byte order.
spec fn places(outer: Seq<TypeModel>, t: TypeModel) -> Set<(Seq<TypeModel>, Endian)>
    decreases t, 0int,
{
    set![(outer.push(t), Endian::Little), (outer.push(t), Endian::Big)].union(
        places_inside(outer.push(t), t.types, t.types.len() as int),
    )
}

/// The chains that go through `outer` to one of the first `n` definitions.
spec fn places_inside(
    outer: Seq<TypeModel>,
    types: Seq<(Seq<char>, TypeModel)>,
    n: int,
) -> Set<(Seq<TypeModel>, Endian)>
    decreases types, n,
{
    if n <= 0 || n > types.len() {
        Set::empty()
    } else {
        places_inside(outer, types, n - 1).union(places(outer, types[n - 1].1))
    }
}

proof fn lemma_places_count(outer: Seq<TypeModel>, t: TypeModel)
    ensures
        places(outer, t).finite(),
        places(outer, t).len() <= 2 * interp::type_count(t),
    decreases t, 0int,
{
    let own = set![(outer.push(t), Endian::Little), (outer.push(t), Endian::Big)];
    let inside = places_inside(outer.push(t), t.types, t.types.len() as int);
    lemma_places_inside_count(outer.push(t), t.types, t.types.len() as int);
    assert(own.len() <= 2);
    lemma_len_union(own, inside);
}

proof fn lemma_places_inside_count(
    outer: Seq<TypeModel>,
    types: Seq<(Seq<char>, TypeModel)>,
    n: int,
)
    ensures
        places_inside(outer, types, n).finite(),
        places_inside(outer, types, n).len() <= 2 * interp::inner_count(types, n),
    decreases types, n,
{
    if 0 < n <= types.len() {
        lemma_places_inside_count(outer, types, n - 1);
        lemma_places_count(outer, types[n - 1].1);
        lemma_len_union(places_inside(outer, types, n - 1), places(outer, types[n - 1].1));
    }
}

proof fn lemma_places_inside(
    outer: Seq<TypeModel>,
    types: Seq<(Seq<char>, TypeModel)>,
    n: int,
    m: int,
)
    requires
        0 <= m < n <= types.len(),
    ensures
        places(outer, types[m].1).subset_of(places_inside(outer, types, n)),
    decreases n,
{
    if m < n - 1 {
        lemma_places_inside(outer, types, n - 1, m);
    }
}

proof fn lemma_places(root: TypeModel, chain: Seq<TypeModel>, endian: Endian, j: int)
    requires
        linked(root, chain),
        0 <= j < chain.len(),
    ensures
        places(chain.take(j), chain[j]).contains((chain, endian)),
    decreases chain.len() - j,
{
    assert(chain.take(j).push(chain[j]) =~= chain.take(j + 1));
    if j + 1 == chain.len() {
        assert(chain.take(j + 1) =~= chain);
    } else {
        lemma_places(root, chain, endian, j + 1);
        assert(child(chain[j + 1 - 1], chain[j + 1]));
        let types = chain[j].types;
        let m = choose|m: int| 0 <= m < types.len() && #[trigger] types[m].1 == chain[j + 1];
        lemma_places_inside(chain.take(j + 1), types, types.len() as int, m);
    }
}

proof fn lemma_level(chain: Seq<TypeModel>, k: int, name: Seq<char>)
    requires
        k < chain.len(),
    ensures
        match interp::outer_level(chain, k, name) {
            Some(l) => 0 <= l <= k && interp::defines(chain[l], name),
            None => true,
        },
    decreases k,
{
    if k > 0 {
        lemma_level(chain, k - 1, name);
    }
}

/// A type that is named in a chain continues it.
pub(crate) proof fn lemma_linked(root: TypeModel, chain: Seq<TypeModel>, name: Seq<char>)
    requires
        linked(root, chain),
    ensures
        match interp::level_of(chain, name) {
            Some(k) => 0 <= k < chain.len() && linked(
                root,
                chain.take(k + 1).push(named::find_entry(chain[k].types, name)->0),
            ),
            None => true,
        },
{
    lemma_level(chain, chain.len() - 2, name);
    if let Some(k) = interp::level_of(chain, name) {
        named::lemma_entry_index(chain[k].types, name);
        let def = named::find_entry(chain[k].types, name)->0;
        let longer = chain.take(k + 1).push(def);
        assert(child(chain[k], def)) by {
            let m = named::entry_index(chain[k].types, name)->0;
            assert(chain[k].types[m].1 == def);
        }
        assert forall|i: int| 0 < i < longer.len() implies child(
            longer[i - 1],
            #[trigger] longer[i],
        ) by {
            if i <= k {
                assert(child(chain[i - 1], chain[i]));
            }
        }
    }
}

// ---------------------------------------------------------------------------
// Frames that come to near outcomes
// ---------------------------------------------------------------------------

/// What the type at the end of the chain decodes to inside the frame.
spec fn inner(
    c: FrameModel,
    chain: Seq<TypeModel>,
    endian: Endian,
    b: Seq<u8>,
    p: nat,
) -> Decoded<Entries> {
    let size = read::left(b, p);
    let idle = if size < c.entry {
        0
    } else {
        c.idle + 1
    };
    if idle >= c.limit {
        Err((interp::inside_itself(Seq::empty()), 0))
    } else {
        interp::fields_from(
            FrameModel {
                chain,
                endian,
                entry: if size < c.entry {
                    size
                } else {
                    c.entry
                },
                idle,
                limit: c.limit,
            },
            0,
            Seq::empty(),
            b,
            p,
        )
    }
}

/// Bytes were taken since the frame started on those of `d` from `q` on, or the
/// same are left.
spec fn since(c: FrameModel, b: Seq<u8>, p: nat, d: Seq<u8>, q: nat) -> bool {
    p <= b.len() && (read::left(b, p) < c.entry || interp::same_rest(b, p, d, q))
}

/// The frames differ at most in how far types may still go into one another, and
/// all types inside come to near outcomes in both.
spec fn akin(
    root: TypeModel,
    c1: FrameModel,
    c2: FrameModel,
    both: bool,
    d: Seq<u8>,
    q: nat,
) -> bool {
    &&& linked(root, c1.chain)
    &&& c1.chain == c2.chain
    &&& c1.endian == c2.endian
    &&& c1.entry == c2.entry
    &&& c1.entry == read::left(d, q)
    &&& forall|chain: Seq<TypeModel>, endian: Endian, b: Seq<u8>, p: nat|
        linked(root, chain) && since(c1, b, p, d, q) ==> near(
            #[trigger] inner(c1, chain, endian, b, p),
            inner(c2, chain, endian, b, p),
            both,
        )
}

proof fn lemma_since(c: FrameModel, b: Seq<u8>, p: nat, n: nat, d: Seq<u8>, q: nat)
    requires
        since(c, b, p, d, q),
        c.entry == read::left(d, q),
        p + n <= b.len(),
    ensures
        since(c, b, p + n, d, q),
{
    if interp::same_rest(b, p, d, q) {
        assert(b.skip(p as int).len() == d.skip(q as int).len());
    }
}

proof fn lemma_near_nested(
    root: TypeModel,
    c1: FrameModel,
    c2: FrameModel,
    both: bool,
    name: Seq<char>,
    len: Option<usize>,
    endian: Endian,
    id: Seq<char>,
    b: Seq<u8>,
    p: nat,
    d: Seq<u8>,
    q: nat,
)
    requires
        akin(root, c1, c2, both, d, q),
        since(c1, b, p, d, q),
    ensures
        near(
            interp::nested(name, len, c1, endian, id, b, p),
            interp::nested(name, len, c2, endian, id, b, p),
            both,
        ),
{
    lemma_linked(root, c1.chain, name);
    if let Some(k) = interp::level_of(c1.chain, name) {
        let chain = c1.chain.take(k + 1).push(named::find_entry(c1.chain[k].types, name)->0);
        match len {
            None => {
                let x = inner(c1, chain, endian, b, p);
                let y = inner(c2, chain, endian, b, p);
                assert(near(x, y, both));
            },
            Some(n) => {
                if let Ok(s) = read::taken(b, p, n as nat, id) {
                    assert(since(c1, s, 0, d, q)) by {
                        if interp::same_rest(b, p, d, q) {
                            assert(b.skip(p as int).len() == d.skip(q as int).len());
                            if n == read::left(b, p) {
                                assert(s.skip(0) =~= b.skip(p as int));
                            }
                        }
                    }
                    assert(read::left(s, 0) == n);
                    let x = inner(c1, chain, endian, s, 0);
                    let y = inner(c2, chain, endian, s, 0);
                    assert(near(x, y, both));
                }
            },
        }
    }
}

proof fn lemma_near_single(
    root: TypeModel,
    c1: FrameModel,
    c2: FrameModel,
    both: bool,
    i: int,
    done: Entries,
    b: Seq<u8>,
    p: nat,
    d: Seq<u8>,
    q: nat,
)
    requires
        akin(root, c1, c2, both, d, q),
        since(c1, b, p, d, q),
    ensures
        near(interp::single(c1, i, done, b, p), interp::single(c2, i, done, b, p), both),
{
    let f = interp::members(c1)[i];
    if f.contents is None {
        if let Ok(len) = interp::given_size(f, done, read::left(b, p)) {
            let endian = match f.endian_override {
                Some(endian) => endian,
                None => c1.endian,
            };
            if let Some(t) = f.type_spec {
                if let Ok(ChosenModel::Named(name)) = interp::chosen(t, f.id, done) {
                    lemma_near_nested(root, c1, c2, both, name, len, endian, f.id, b, p, d, q);
                }
            }
        }
    }
}

proof fn lemma_near_repeated(
    root: TypeModel,
    c1: FrameModel,
    c2: FrameModel,
    both: bool,
    i: int,
    done: Entries,
    count: nat,
    items: Seq<ValueModel>,
    b: Seq<u8>,
    p: nat,
    d: Seq<u8>,
    q: nat,
)
    requires
        akin(root, c1, c2, both, d, q),
        since(c1, b, p, d, q),
    ensures
        near(
            interp::repeated(c1, i, done, count, items, b, p),
            interp::repeated(c2, i, done, count, items, b, p),
            both,
        ),
    decreases count,
{
    if count > 0 {
        lemma_near_single(root, c1, c2, both, i, done, b, p, d, q);
        interp::lemma_single_within(c1, i, done, b, p);
        if let Ok((v, n)) = interp::single(c1, i, done, b, p) {
            lemma_since(c1, b, p, n, d, q);
            lemma_near_repeated(
                root,
                c1,
                c2,
                both,
                i,
                done,
                (count - 1) as nat,
                items.push(v),
                b,
                p + n,
                d,
                q,
            );
        }
    }
}

proof fn lemma_near_to_end(
    root: TypeModel,
    c1: FrameModel,
    c2: FrameModel,
    both: bool,
    i: int,
    done: Entries,
    items: Seq<ValueModel>,
    b: Seq<u8>,
    p: nat,
    d: Seq<u8>,
    q: nat,
)
    requires
        akin(root, c1, c2, both, d, q),
        since(c1, b, p, d, q),
    ensures
        near(
            interp::to_end(c1, i, done, items, b, p),
            interp::to_end(c2, i, done, items, b, p),
            both,
        ),
    decreases read::left(b, p),
{
    if p < b.len() {
        lemma_near_single(root, c1, c2, both, i, done, b, p, d, q);
        interp::lemma_single_within(c1, i, done, b, p);
        if let Ok((v, n)) = interp::single(c1, i, done, b, p) {
            if n > 0 {
                lemma_since(c1, b, p, n, d, q);
                lemma_near_to_end(root, c1, c2, both, i, done, items.push(v), b, p + n, d, q);
            }
        }
    }
}

proof fn lemma_near_until(
    root: TypeModel,
    c1: FrameModel,
    c2: FrameModel,
    both: bool,
    i: int,
    done: Entries,
    cond: ExprModel,
    items: Seq<ValueModel>,
    b: Seq<u8>,
    p: nat,
    d: Seq<u8>,
    q: nat,
)
    requires
        akin(root, c1, c2, both, d, q),
        since(c1, b, p, d, q),
    ensures
        near(
            interp::until(c1, i, done, cond, items, b, p),
            interp::until(c2, i, done, cond, items, b, p),
            both,
        ),
    decreases read::left(b, p),
{
    lemma_near_single(root, c1, c2, both, i, done, b, p, d, q);
    interp::lemma_single_within(c1, i, done, b, p);
    if let Ok((v, n)) = interp::single(c1, i, done, b, p) {
        if n > 0 && p + n < b.len() {
            lemma_since(c1, b, p, n, d, q);
            lemma_near_until(root, c1, c2, both, i, done, cond, items.push(v), b, p + n, d, q);
        }
    }
}

proof fn lemma_near_occurrences(
    root: TypeModel,
    c1: FrameModel,
    c2: FrameModel,
    both: bool,
    i: int,
    done: Entries,
    b: Seq<u8>,
    p: nat,
    d: Seq<u8>,
    q: nat,
)
    requires
        akin(root, c1, c2, both, d, q),
        since(c1, b, p, d, q),
    ensures
        near(interp::occurrences(c1, i, done, b, p), interp::occurrences(c2, i, done, b, p), both),
{
    match interp::members(c1)[i].repeat {
        None => {
            lemma_near_single(root, c1, c2, both, i, done, b, p, d, q);
        },
        Some(RepeatModel::Expr(e)) => {
            if let Ok(count) = eval::measured(e, interp::scope(done)) {
                lemma_near_repeated(
                    root,
                    c1,
                    c2,
                    both,
                    i,
                    done,
                    count as nat,
                    Seq::empty(),
                    b,
                    p,
                    d,
                    q,
                );
            }
        },
        Some(RepeatModel::Eos) => {
            lemma_near_to_end(root, c1, c2, both, i, done, Seq::empty(), b, p, d, q);
        },
        Some(RepeatModel::Until(e)) => {
            lemma_near_until(root, c1, c2, both, i, done, e, Seq::empty(), b, p, d, q);
        },
    }
}

proof fn lemma_near_fields(
    root: TypeModel,
    c1: FrameModel,
    c2: FrameModel,
    both: bool,
    i: int,
    done: Entries,
    b: Seq<u8>,
    p: nat,
    d: Seq<u8>,
    q: nat,
)
    requires
        akin(root, c1, c2, both, d, q),
        since(c1, b, p, d, q),
    ensures
        near(interp::fields_from(c1, i, done, b, p), interp::fields_from(c2, i, done, b, p), both),
    decreases interp::to_come(c1, i),
{
    if 0 <= i < interp::members(c1).len() {
        match interp::skipped(c1, i, done) {
            Ok(true) => {
                lemma_near_fields(root, c1, c2, both, i + 1, done, b, p, d, q);
            },
            Ok(false) => {
                lemma_near_occurrences(root, c1, c2, both, i, done, b, p, d, q);
                interp::lemma_occurrences_within(c1, i, done, b, p);
                if let Ok((v, n)) = interp::occurrences(c1, i, done, b, p) {
                    lemma_since(c1, b, p, n, d, q);
                    lemma_near_fields(
                        root,
                        c1,
                        c2,
                        both,
                        i + 1,
                        named::put_entry(done, interp::members(c1)[i].id, v),
                        b,
                        p + n,
                        d,
                        q,
                    );
                }
            },
            Err(_) => {},
        }
    }
}

// ---------------------------------------------------------------------------
// Going further
// ---------------------------------------------------------------------------

/// What a type decodes to where `s` types, with itself, may still start one
/// inside the other before a byte is taken, and `limit` after that.
spec fn going(
    limit: nat,
    s: nat,
    chain: Seq<TypeModel>,
    endian: Endian,
    b: Seq<u8>,
    p: nat,
) -> Decoded<Entries> {
    if s == 0 {
        Err((interp::inside_itself(Seq::empty()), 0))
    } else {
        interp::fields_from(
            FrameModel {
                chain,
                endian,
                entry: read::left(b, p),
                idle: (limit - s) as nat,
                limit,
            },
            0,
            Seq::empty(),
            b,
            p,
        )
    }
}

/// Going as far as `s1` and as far as `s2` comes to near outcomes for all types.
spec fn close(
    root: TypeModel,
    limit1: nat,
    s1: nat,
    limit2: nat,
    s2: nat,
    both: bool,
    b: Seq<u8>,
    p: nat,
) -> bool {
    forall|chain: Seq<TypeModel>, endian: Endian|
        linked(root, chain) ==> near(
            #[trigger] going(limit1, s1, chain, endian, b, p),
            going(limit2, s2, chain, endian, b, p),
            both,
        )
}

/// The limits come to near outcomes on all data shorter than that of `d` from
/// `q` on.
spec fn close_on_less(
    root: TypeModel,
    limit1: nat,
    limit2: nat,
    both: bool,
    d: Seq<u8>,
    q: nat,
) -> bool {
    forall|b: Seq<u8>, p: nat|
        p <= b.len() && read::left(b, p) < read::left(d, q) ==> #[trigger] close(
            root,
            limit1,
            limit1,
            limit2,
            limit2,
            both,
            b,
            p,
        )
}

proof fn lemma_one_further(
    root: TypeModel,
    limit1: nat,
    s1: nat,
    limit2: nat,
    s2: nat,
    both: bool,
    d: Seq<u8>,
    q: nat,
)
    requires
        s1 < limit1,
        s2 < limit2,
        q <= d.len(),
        close(root, limit1, s1, limit2, s2, both, d, q),
        close_on_less(root, limit1, limit2, both, d, q),
    ensures
        close(root, limit1, s1 + 1, limit2, s2 + 1, both, d, q),
{
    assert forall|chain: Seq<TypeModel>, endian: Endian| linked(root, chain) implies near(
        #[trigger] going(limit1, s1 + 1, chain, endian, d, q),
        going(limit2, s2 + 1, chain, endian, d, q),
        both,
    ) by {
        let c1 = FrameModel {
            chain,
            endian,
            entry: read::left(d, q),
            idle: (limit1 - (s1 + 1)) as nat,
            limit: limit1,
        };
        let c2 = FrameModel { idle: (limit2 - (s2 + 1)) as nat, limit: limit2, ..c1 };
        assert forall|ch: Seq<TypeModel>, en: Endian, b: Seq<u8>, p: nat|
            linked(root, ch) && since(c1, b, p, d, q) implies near(
            #[trigger] inner(c1, ch, en, b, p),
            inner(c2, ch, en, b, p),
            both,
        ) by {
            if read::left(b, p) < c1.entry {
                assert(close(root, limit1, limit1, limit2, limit2, both, b, p));
                assert(inner(c1, ch, en, b, p) == going(limit1, limit1, ch, en, b, p));
                assert(inner(c2, ch, en, b, p) == going(limit2, limit2, ch, en, b, p));
            } else {
                lemma_inner(c1, s1, ch, en, b, p, d, q);
                lemma_inner(c2, s2, ch, en, b, p, d, q);
                assert(near(
                    going(limit1, s1, ch, en, d, q),
                    going(limit2, s2, ch, en, d, q),
                    both,
                ));
            }
        }
        lemma_near_fields(root, c1, c2, both, 0, Seq::empty(), d, q, d, q);
    }
}

proof fn lemma_inner(
    c: FrameModel,
    s: nat,
    chain: Seq<TypeModel>,
    endian: Endian,
    b: Seq<u8>,
    p: nat,
    d: Seq<u8>,
    q: nat,
)
    requires
        s < c.limit,
        c.idle == c.limit - (s + 1),
        c.entry == read::left(d, q),
        interp::same_rest(b, p, d, q),
    ensures
        inner(c, chain, endian, b, p) == going(c.limit, s, chain, endian, d, q),
{
    assert(b.skip(p as int).len() == d.skip(q as int).len());
    if s > 0 {
        let f = FrameModel {
            chain,
            endian,
            entry: c.entry,
            idle: (c.limit - s) as nat,
            limit: c.limit,
        };
        interp::law_only_what_is_left_counts(f, b, p, d, q);
    }
}

/// The limit itself does not matter until a byte is taken.
proof fn lemma_as_far(
    root: TypeModel,
    limit1: nat,
    limit2: nat,
    s: nat,
    d: Seq<u8>,
    q: nat,
)
    requires
        s <= limit1,
        s <= limit2,
        q <= d.len(),
        close_on_less(root, limit1, limit2, true, d, q),
    ensures
        close(root, limit1, s, limit2, s, true, d, q),
    decreases s,
{
    if s > 0 {
        lemma_as_far(root, limit1, limit2, (s - 1) as nat, d, q);
        lemma_one_further(
            root,
            limit1,
            (s - 1) as nat,
            limit2,
            (s - 1) as nat,
            true,
            d,
            q,
        );
    }
}

/// Going further changes no outcome but a refusal.
proof fn lemma_further(root: TypeModel, limit: nat, s: nat, d: Seq<u8>, q: nat)
    requires
        s < limit,
        q <= d.len(),
    ensures
        close(root, limit, s, limit, s + 1, false, d, q),
    decreases s,
{
    if s == 0 {
        let e = interp::inside_itself(Seq::empty());
        assert(refusal(e));
    } else {
        lemma_further(root, limit, (s - 1) as nat, d, q);
        assert(close_on_less(root, limit, limit, false, d, q));
        lemma_one_further(root, limit, (s - 1) as nat, limit, s, false, d, q);
    }
}

/// Where one step further changes nothing, no more steps do.
proof fn lemma_no_further(root: TypeModel, limit: nat, s: nat, t: nat, d: Seq<u8>, q: nat)
    requires
        s <= t < limit,
        q <= d.len(),
        close(root, limit, s, limit, s + 1, true, d, q),
    ensures
        close(root, limit, t, limit, t + 1, true, d, q),
        close(root, limit, s, limit, t + 1, true, d, q),
    decreases t - s,
{
    if s < t {
        lemma_no_further(root, limit, s, (t - 1) as nat, d, q);
        assert(close_on_less(root, limit, limit, true, d, q));
        lemma_one_further(root, limit, (t - 1) as nat, limit, t, true, d, q);
        assert forall|chain: Seq<TypeModel>, endian: Endian| linked(root, chain) implies near(
            #[trigger] going(limit, s, chain, endian, d, q),
            going(limit, t + 1, chain, endian, d, q),
            true,
        ) by {
            assert(near(
                going(limit, s, chain, endian, d, q),
                going(limit, t, chain, endian, d, q),
                true,
            ));
            assert(near(
                going(limit, t, chain, endian, d, q),
                going(limit, t + 1, chain, endian, d, q),
                true,
            ));
        }
    }
}

/// The places at which going as far as `s` is refused.
spec fn refusals(root: TypeModel, limit: nat, s: nat, d: Seq<u8>, q: nat) -> Set<
    (Seq<TypeModel>, Endian),
> {
    places(Seq::empty(), root).filter(
        |x: (Seq<TypeModel>, Endian)|
            linked(root, x.0) && halted(going(limit, s, x.0, x.1, d, q)),
    )
}

proof fn lemma_fewer_refusals(root: TypeModel, limit: nat, s: nat, d: Seq<u8>, q: nat)
    requires
        s < limit,
        q <= d.len(),
    ensures
        close(root, limit, s, limit, s + 1, true, d, q) || refusals(root, limit, s + 1, d, q).len()
            < refusals(root, limit, s, d, q).len(),
{
    lemma_further(root, limit, s, d, q);
    if !close(root, limit, s, limit, s + 1, true, d, q) {
        let (chain, endian) = choose|chain: Seq<TypeModel>, endian: Endian|
            linked(root, chain) && !near(
                #[trigger] going(limit, s, chain, endian, d, q),
                going(limit, s + 1, chain, endian, d, q),
                true,
            );
        let x = (chain, endian);
        let now = refusals(root, limit, s, d, q);
        let later = refusals(root, limit, s + 1, d, q);
        lemma_places(root, chain, endian, 0);
        assert(chain.take(0) =~= Seq::<TypeModel>::empty());
        assert(near(
            going(limit, s, chain, endian, d, q),
            going(limit, s + 1, chain, endian, d, q),
            false,
        ));
        assert(now.contains(x) && !later.contains(x));
        assert forall|y: (Seq<TypeModel>, Endian)| later.contains(y) implies now.contains(y) by {
            assert(near(
                going(limit, s, y.0, y.1, d, q),
                going(limit, s + 1, y.0, y.1, d, q),
                false,
            ));
        }
        lemma_places_count(Seq::empty(), root);
        places(Seq::empty(), root).lemma_len_filter(
            |x: (Seq<TypeModel>, Endian)|
                linked(root, x.0) && halted(going(limit, s, x.0, x.1, d, q)),
        );
        later.lemma_subset_not_in_lt(now, x);
    }
}

proof fn lemma_refusals_left(root: TypeModel, limit: nat, s: nat, d: Seq<u8>, q: nat)
    requires
        s < limit,
        q <= d.len(),
    ensures
        close(root, limit, s, limit, s + 1, true, d, q) || refusals(root, limit, s, d, q).len() + s
            <= 2 * interp::type_count(root),
    decreases s,
{
    if s == 0 {
        lemma_places_count(Seq::empty(), root);
        places(Seq::empty(), root).lemma_len_filter(
            |x: (Seq<TypeModel>, Endian)|
                linked(root, x.0) && halted(going(limit, s, x.0, x.1, d, q)),
        );
    } else {
        let r = (s - 1) as nat;
        lemma_refusals_left(root, limit, r, d, q);
        if close(root, limit, r, limit, s, true, d, q) {
            lemma_no_further(root, limit, r, s, d, q);
        } else {
            lemma_fewer_refusals(root, limit, r, d, q);
        }
    }
}

/// Going further than there are places changes nothing.
proof fn lemma_far_enough(root: TypeModel, limit: nat, d: Seq<u8>, q: nat)
    requires
        2 * interp::type_count(root) < limit,
        q <= d.len(),
    ensures
        ({
            let s = 2 * interp::type_count(root);
            close(root, limit, s, limit, limit, true, d, q)
        }),
{
    let s = 2 * interp::type_count(root);
    lemma_refusals_left(root, limit, s, d, q);
    if !close(root, limit, s, limit, s + 1, true, d, q) {
        lemma_fewer_refusals(root, limit, s, d, q);
    }
    lemma_no_further(root, limit, s, (limit - 1) as nat, d, q);
}

proof fn lemma_enough(root: TypeModel, limit: nat, d: Seq<u8>, q: nat)
    requires
        2 * interp::type_count(root) <= limit,
        q <= d.len(),
    ensures
        ({
            let s = 2 * interp::type_count(root);
            close(root, s, s, limit, limit, true, d, q)
        }),
    decreases read::left(d, q),
{
    let s = 2 * interp::type_count(root);
    assert forall|b: Seq<u8>, p: nat|
        p <= b.len() && read::left(b, p) < read::left(d, q) implies #[trigger] close(
        root,
        s,
        s,
        limit,
        limit,
        true,
        b,
        p,
    ) by {
        lemma_enough(root, limit, b, p);
    }
    if s < limit {
        lemma_as_far(root, s, limit, s, d, q);
        lemma_far_enough(root, limit, d, q);
        assert forall|chain: Seq<TypeModel>, endian: Endian| linked(root, chain) implies near(
            #[trigger] going(s, s, chain, endian, d, q),
            going(limit, limit, chain, endian, d, q),
            true,
        ) by {
            assert(near(
                going(limit, s, chain, endian, d, q),
                going(limit, limit, chain, endian, d, q),
                true,
            ));
        }
    }
}

/// What is decoded where types may go so far into one another is decoded where
/// they may go further.
pub(crate) proof fn lemma_more_room(
    root: TypeModel,
    c: FrameModel,
    idle: nat,
    d: Seq<u8>,
    q: nat,
)
    requires
        linked(root, c.chain),
        c.entry == read::left(d, q),
        q <= d.len(),
        idle <= c.idle < c.limit,
        interp::fields_from(c, 0, Seq::empty(), d, q) is Ok,
    ensures
        interp::fields_from(FrameModel { idle, ..c }, 0, Seq::empty(), d, q)
            == interp::fields_from(c, 0, Seq::empty(), d, q),
    decreases c.idle,
{
    if idle < c.idle {
        let s = (c.limit - c.idle) as nat;
        let next = FrameModel { idle: (c.idle - 1) as nat, ..c };
        lemma_further(root, c.limit, s, d, q);
        assert(near(
            going(c.limit, s, c.chain, c.endian, d, q),
            going(c.limit, s + 1, c.chain, c.endian, d, q),
            false,
        ));
        lemma_more_room(root, next, idle, d, q);
    }
}

/// The limit refuses only what would never end: with any higher limit decoding
/// comes to the same, or is refused as well.
pub proof fn law_only_endless_nesting_is_refused(
    root: TypeModel,
    endian: Endian,
    b: Seq<u8>,
    limit: nat,
)
    requires
        2 * interp::type_count(root) <= usize::MAX,
        limit >= interp::nesting_limit(root),
    ensures
        ({
            let r = interp::decoded(root, endian, b);
            let higher = interp::decoded_within(root, endian, b, limit);
            higher == r || (refused(higher) && refused(r))
        }),
{
    let s = interp::nesting_limit(root);
    lemma_enough(root, limit, b, 0);
    assert(linked(root, seq![root]));
    assert(near(
        going(s, s, seq![root], endian, b, 0),
        going(limit, limit, seq![root], endian, b, 0),
        true,
    ));
}

} // verus!
