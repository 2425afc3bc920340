use vstd::prelude::*;
use vstd::string::StringSliceAdditionalSpecFns;

verus! {

/// Lexicographic order on byte strings: `a` comes strictly before `b`.
pub open spec fn bytes_lt(a: Seq<u8>, b: Seq<u8>) -> bool
    decreases a.len(),
{
    if b.len() == 0 {
        false
    } else if a.len() == 0 {
        true
    } else if a[0] < b[0] {
        true
    } else if b[0] < a[0] {
        false
    } else {
        bytes_lt(a.skip(1), b.skip(1))
    }
}

/// Order on paths: componentwise lexicographic, each component ordered by
/// `bytes_lt`. A proper prefix comes before its extensions, so a directory
/// precedes everything inside it.
pub open spec fn path_lt(a: Seq<Seq<u8>>, b: Seq<Seq<u8>>) -> bool
    decreases a.len(),
{
    if b.len() == 0 {
        false
    } else if a.len() == 0 {
        true
    } else if bytes_lt(a[0], b[0]) {
        true
    } else if bytes_lt(b[0], a[0]) {
        false
    } else if a[0] =~= b[0] {
        path_lt(a.skip(1), b.skip(1))
    } else {
        false
    }
}

/// `p` is an ancestor-or-equal of `q`: `p`'s components start `q`.
pub open spec fn path_is_prefix(p: Seq<Seq<u8>>, q: Seq<Seq<u8>>) -> bool {
    p.len() <= q.len() && forall|i: int| 0 <= i < p.len() ==> p[i] =~= q[i]
}

pub proof fn lemma_bytes_lt_trichotomy(a: Seq<u8>, b: Seq<u8>)
    ensures
        bytes_lt(a, b) || bytes_lt(b, a) || a =~= b,
        bytes_lt(a, b) ==> !bytes_lt(b, a),
        bytes_lt(a, b) ==> !(a =~= b),
    decreases a.len(),
{
    if a.len() == 0 || b.len() == 0 {
    } else if a[0] == b[0] {
        lemma_bytes_lt_trichotomy(a.skip(1), b.skip(1));
        if a.skip(1) =~= b.skip(1) {
            assert forall|i: int| 0 <= i < a.len() implies a[i] == b[i] by {
                if i > 0 {
                    assert(a.skip(1)[i - 1] == b.skip(1)[i - 1]);
                }
            }
            assert(a =~= b);
        }
        if a =~= b {
            assert forall|i: int| 0 <= i < a.skip(1).len() implies a.skip(1)[i] == b.skip(1)[i] by {
                assert(a[i + 1] == b[i + 1]);
            }
            assert(a.skip(1) =~= b.skip(1));
        }
    }
}

pub proof fn lemma_bytes_lt_trans(a: Seq<u8>, b: Seq<u8>, c: Seq<u8>)
    requires
        bytes_lt(a, b),
        bytes_lt(b, c),
    ensures
        bytes_lt(a, c),
    decreases a.len(),
{
    if a.len() == 0 {
    } else {
        if a[0] == b[0] && b[0] == c[0] {
            lemma_bytes_lt_trans(a.skip(1), b.skip(1), c.skip(1));
        }
    }
}

pub proof fn lemma_path_lt_trichotomy(a: Seq<Seq<u8>>, b: Seq<Seq<u8>>)
    ensures
        path_lt(a, b) || path_lt(b, a) || a =~~= b,
        path_lt(a, b) ==> !path_lt(b, a),
        path_lt(a, b) ==> !(a =~~= b),
    decreases a.len(),
{
    if a.len() == 0 || b.len() == 0 {
    } else {
        lemma_bytes_lt_trichotomy(a[0], b[0]);
        if !bytes_lt(a[0], b[0]) && !bytes_lt(b[0], a[0]) {
            assert(a[0] =~= b[0]);
            lemma_path_lt_trichotomy(a.skip(1), b.skip(1));
            if a.skip(1) =~~= b.skip(1) {
                assert forall|i: int| 0 <= i < a.len() implies a[i] =~= b[i] by {
                    if i > 0 {
                        assert(a.skip(1)[i - 1] =~= b.skip(1)[i - 1]);
                    }
                }
                assert(a =~~= b);
            }
            if a =~~= b {
                assert forall|i: int|
                    0 <= i < a.skip(1).len() implies a.skip(1)[i] =~= b.skip(1)[i] by {
                    assert(a[i + 1] =~= b[i + 1]);
                }
                assert(a.skip(1) =~~= b.skip(1));
            }
        }
    }
}

pub proof fn lemma_path_lt_trans(a: Seq<Seq<u8>>, b: Seq<Seq<u8>>, c: Seq<Seq<u8>>)
    requires
        path_lt(a, b),
        path_lt(b, c),
    ensures
        path_lt(a, c),
    decreases a.len(),
{
    if a.len() == 0 {
    } else if b.len() == 0 || c.len() == 0 {
    } else {
        lemma_bytes_lt_trichotomy(a[0], b[0]);
        lemma_bytes_lt_trichotomy(b[0], c[0]);
        lemma_bytes_lt_trichotomy(a[0], c[0]);
        if bytes_lt(a[0], b[0]) && bytes_lt(b[0], c[0]) {
            lemma_bytes_lt_trans(a[0], b[0], c[0]);
        } else if bytes_lt(a[0], b[0]) && b[0] =~= c[0] {
        } else if a[0] =~= b[0] && bytes_lt(b[0], c[0]) {
        } else {
            assert(a[0] =~= b[0] && b[0] =~= c[0]);
            lemma_path_lt_trans(a.skip(1), b.skip(1), c.skip(1));
        }
    }
}

/// A proper prefix of a path sorts strictly before it.
pub proof fn lemma_prefix_lt(p: Seq<Seq<u8>>, q: Seq<Seq<u8>>)
    requires
        path_is_prefix(p, q),
        p.len() < q.len(),
    ensures
        path_lt(p, q),
    decreases p.len(),
{
    if p.len() == 0 {
    } else {
        lemma_bytes_lt_trichotomy(p[0], q[0]);
        assert forall|i: int|
            0 <= i < p.skip(1).len() implies p.skip(1)[i] =~= q.skip(1)[i] by {
            assert(p[i + 1] =~= q[i + 1]);
        }
        assert(path_is_prefix(p.skip(1), q.skip(1)));
        lemma_prefix_lt(p.skip(1), q.skip(1));
    }
}

/// A path relative to the worktree root, as a list of name components.
/// The empty list is the root itself.
#[derive(Clone, Debug)]
pub struct RelPath {
    pub components: Vec<Vec<u8>>,
}

impl View for RelPath {
    type V = Seq<Seq<u8>>;

    open spec fn view(&self) -> Seq<Seq<u8>> {
        self.components@.map(|_i: int, c: Vec<u8>| c@)
    }
}

/// A single well-formed path component: non-empty, no separator, and not a
/// current- or parent-directory marker.
pub open spec fn component_wf(c: Seq<u8>) -> bool {
    &&& c.len() > 0
    &&& (forall|i: int| 0 <= i < c.len() ==> c[i] != 47u8)
    &&& !(c =~= seq![46u8])
    &&& !(c =~= seq![46u8, 46u8])
}

pub open spec fn path_wf(p: Seq<Seq<u8>>) -> bool {
    forall|i: int| 0 <= i < p.len() ==> #[trigger] component_wf(p[i])
}

/// The separator-delimited components of a byte string. Splitting never
/// yields an empty list: the empty string splits into one empty
/// component.
pub open spec fn split_components(bytes: Seq<u8>) -> Seq<Seq<u8>>
    decreases bytes.len(),
{
    if bytes.len() == 0 {
        seq![Seq::<u8>::empty()]
    } else if bytes[0] == 47u8 {
        seq![Seq::<u8>::empty()] + split_components(bytes.skip(1))
    } else {
        let rest = split_components(bytes.skip(1));
        seq![seq![bytes[0]] + rest[0]] + rest.skip(1)
    }
}

/// The byte views of a list of components.
pub open spec fn eview_bytes(cs: Seq<Vec<u8>>) -> Seq<Seq<u8>> {
    cs.map(|_i: int, c: Vec<u8>| c@)
}

pub proof fn lemma_split_nonempty(bytes: Seq<u8>)
    ensures
        split_components(bytes).len() >= 1,
    decreases bytes.len(),
{
    if bytes.len() > 0 {
        lemma_split_nonempty(bytes.skip(1));
    }
}

/// A separator-free run followed by the rest: the run prepends onto the
/// first component of the rest's split.
proof fn lemma_split_run(bytes: Seq<u8>, s: int, i: int)
    requires
        0 <= s <= i <= bytes.len(),
        forall|j: int| s <= j < i ==> bytes[j] != 47u8,
    ensures
        split_components(bytes.skip(s)) =~~= seq![
            bytes.subrange(s, i) + split_components(bytes.skip(i))[0],
        ] + split_components(bytes.skip(i)).skip(1),
    decreases i - s,
{
    lemma_split_nonempty(bytes.skip(i));
    if s == i {
        lemma_split_nonempty(bytes.skip(s));
        assert(bytes.subrange(s, i) =~= Seq::<u8>::empty());
        assert(split_components(bytes.skip(s)) =~~= seq![
            Seq::<u8>::empty() + split_components(bytes.skip(s))[0],
        ] + split_components(bytes.skip(s)).skip(1));
    } else {
        lemma_split_run(bytes, s + 1, i);
        let tail = bytes.skip(s);
        assert(tail.len() > 0);
        assert(tail[0] == bytes[s]);
        assert(bytes[s] != 47u8);
        assert(tail.skip(1) =~= bytes.skip(s + 1));
        let rest = split_components(bytes.skip(s + 1));
        lemma_split_nonempty(bytes.skip(s + 1));
        assert(split_components(tail) == seq![seq![tail[0]] + rest[0]] + rest.skip(1));
        assert(rest =~~= seq![
            bytes.subrange(s + 1, i) + split_components(bytes.skip(i))[0],
        ] + split_components(bytes.skip(i)).skip(1));
        assert(seq![bytes[s]] + (bytes.subrange(s + 1, i) + split_components(bytes.skip(i))[0])
            =~= bytes.subrange(s, i) + split_components(bytes.skip(i))[0]);
        assert(rest.skip(1) =~~= split_components(bytes.skip(i)).skip(1));
    }
}

/// Splitting at a separator: the run before it is a whole component.
proof fn lemma_split_at_sep(bytes: Seq<u8>, s: int, i: int)
    requires
        0 <= s <= i < bytes.len(),
        bytes[i] == 47u8,
        forall|j: int| s <= j < i ==> bytes[j] != 47u8,
    ensures
        split_components(bytes.skip(s)) =~~= seq![bytes.subrange(s, i)] + split_components(
            bytes.skip(i + 1),
        ),
{
    lemma_split_run(bytes, s, i);
    let at_i = bytes.skip(i);
    assert(at_i.len() > 0 && at_i[0] == 47u8);
    assert(at_i.skip(1) =~= bytes.skip(i + 1));
    lemma_split_nonempty(bytes.skip(i + 1));
    assert(split_components(at_i) == seq![Seq::<u8>::empty()] + split_components(
        bytes.skip(i + 1),
    ));
    assert(split_components(at_i)[0] =~= Seq::<u8>::empty());
    assert(bytes.subrange(s, i) + Seq::<u8>::empty() =~= bytes.subrange(s, i));
    assert(split_components(at_i).skip(1) =~~= split_components(bytes.skip(i + 1)));
}

/// Splitting a trailing separator-free run: one final component.
proof fn lemma_split_tail(bytes: Seq<u8>, s: int)
    requires
        0 <= s <= bytes.len(),
        forall|j: int| s <= j < bytes.len() ==> bytes[j] != 47u8,
    ensures
        split_components(bytes.skip(s)) =~~= seq![bytes.subrange(s, bytes.len() as int)],
{
    lemma_split_run(bytes, s, bytes.len() as int);
    let at_end = bytes.skip(bytes.len() as int);
    assert(at_end.len() == 0);
    assert(split_components(at_end) =~~= seq![Seq::<u8>::empty()]);
    assert(bytes.subrange(s, bytes.len() as int) + Seq::<u8>::empty() =~= bytes.subrange(
        s,
        bytes.len() as int,
    ));
    assert(split_components(at_end).skip(1) =~~= Seq::<Seq<u8>>::empty());
}

/// Three-way comparison result for paths and byte strings.
#[derive(Clone, Copy, Debug, PartialEq, Eq, Structural)]
pub enum Order {
    Less,
    Equal,
    Greater,
}

pub fn clone_bytes(v: &Vec<u8>) -> (r: Vec<u8>)
    ensures
        r@ =~= v@,
{
    let mut r: Vec<u8> = Vec::new();
    let mut i: usize = 0;
    while i < v.len()
        invariant
            i <= v@.len(),
            r@ =~= v@.subrange(0, i as int),
        decreases v@.len() - i,
    {
        r.push(v[i]);
        i = i + 1;
    }
    proof {
        assert(r@ =~= v@);
    }
    r
}

pub fn bytes_cmp(a: &Vec<u8>, b: &Vec<u8>) -> (r: Order)
    ensures
        r == Order::Less <==> bytes_lt(a@, b@),
        r == Order::Equal <==> a@ =~= b@,
        r == Order::Greater <==> bytes_lt(b@, a@),
{
    proof {
        lemma_bytes_lt_trichotomy(a@, b@);
    }
    let n = if a.len() < b.len() {
        a.len()
    } else {
        b.len()
    };
    proof {
        assert(a@.skip(0) =~= a@);
        assert(b@.skip(0) =~= b@);
    }
    let mut i: usize = 0;
    while i < n
        invariant
            i <= n,
            n <= a@.len(),
            n <= b@.len(),
            n == if a@.len() < b@.len() {
                a@.len()
            } else {
                b@.len()
            },
            bytes_lt(a@, b@) <==> bytes_lt(a@.skip(i as int), b@.skip(i as int)),
            bytes_lt(b@, a@) <==> bytes_lt(b@.skip(i as int), a@.skip(i as int)),
            a@ =~= b@ <==> (a@.len() == b@.len() && a@.skip(i as int) =~= b@.skip(i as int)),
        decreases n - i,
    {
        let x = a[i];
        let y = b[i];
        proof {
            assert(a@.skip(i as int)[0] == a@[i as int]);
            assert(b@.skip(i as int)[0] == b@[i as int]);
            assert(a@.skip(i as int).skip(1) =~= a@.skip(i + 1));
            assert(b@.skip(i as int).skip(1) =~= b@.skip(i + 1));
        }
        if x < y {
            return Order::Less;
        }
        if y < x {
            return Order::Greater;
        }
        proof {
            if a@.len() == b@.len() {
                if a@.skip(i as int) =~= b@.skip(i as int) {
                    assert(a@.skip(i + 1) =~= b@.skip(i + 1));
                }
                if a@.skip(i + 1) =~= b@.skip(i + 1) {
                    assert forall|j: int|
                        0 <= j < a@.skip(i as int).len() implies a@.skip(i as int)[j] == b@.skip(
                        i as int,
                    )[j] by {
                        if j > 0 {
                            assert(a@.skip(i + 1)[j - 1] == b@.skip(i + 1)[j - 1]);
                        }
                    }
                    assert(a@.skip(i as int) =~= b@.skip(i as int));
                }
            }
        }
        i = i + 1;
    }
    if a.len() < b.len() {
        proof {
            assert(a@.skip(n as int).len() == 0 && b@.skip(n as int).len() > 0);
        }
        Order::Less
    } else if b.len() < a.len() {
        proof {
            assert(b@.skip(n as int).len() == 0 && a@.skip(n as int).len() > 0);
        }
        Order::Greater
    } else {
        proof {
            assert(a@.skip(n as int) =~= b@.skip(n as int));
        }
        Order::Equal
    }
}

impl RelPath {
    /// The worktree root: the empty relative path.
    pub fn root() -> (r: RelPath)
        ensures
            r@ =~= Seq::<Seq<u8>>::empty(),
    {
        RelPath { components: Vec::new() }
    }

    pub open spec fn is_root(&self) -> bool {
        self@.len() == 0
    }

    pub open spec fn wf(&self) -> bool {
        path_wf(self@)
    }

    pub fn clone_path(&self) -> (r: RelPath)
        ensures
            r@ =~~= self@,
    {
        let mut components: Vec<Vec<u8>> = Vec::new();
        let mut i: usize = 0;
        while i < self.components.len()
            invariant
                i <= self.components@.len(),
                components@.len() == i,
                forall|j: int| 0 <= j < i ==> components@[j]@ =~= self.components@[j]@,
            decreases self.components@.len() - i,
        {
            let c = clone_bytes(&self.components[i]);
            components.push(c);
            i = i + 1;
        }
        let r = RelPath { components };
        proof {
            assert forall|j: int| 0 <= j < r@.len() implies r@[j] =~= self@[j] by {
                assert(r.components@[j]@ =~= self.components@[j]@);
            }
            assert(r@ =~~= self@);
        }
        r
    }

    /// Three-way comparison in the path order.
    pub fn cmp(&self, other: &RelPath) -> (r: Order)
        ensures
            r == Order::Less <==> path_lt(self@, other@),
            r == Order::Equal <==> self@ =~~= other@,
            r == Order::Greater <==> path_lt(other@, self@),
    {
        proof {
            lemma_path_lt_trichotomy(self@, other@);
        }
        let n = if self.components.len() < other.components.len() {
            self.components.len()
        } else {
            other.components.len()
        };
        proof {
            assert(self@.skip(0) =~~= self@);
            assert(other@.skip(0) =~~= other@);
        }
        let ghost av = self@;
        let ghost bv = other@;
        let mut i: usize = 0;
        while i < n
            invariant
                i <= n,
                av == self@,
                bv == other@,
                n <= av.len(),
                n <= bv.len(),
                n == if av.len() < bv.len() {
                    av.len()
                } else {
                    bv.len()
                },
                path_lt(av, bv) <==> path_lt(av.skip(i as int), bv.skip(i as int)),
                path_lt(bv, av) <==> path_lt(bv.skip(i as int), av.skip(i as int)),
                av =~~= bv <==> (av.len() == bv.len() && av.skip(i as int) =~~= bv.skip(i as int)),
            decreases n - i,
        {
            proof {
                assert(av.skip(i as int)[0] =~= av[i as int]);
                assert(bv.skip(i as int)[0] =~= bv[i as int]);
                assert(av.skip(i as int).skip(1) =~= av.skip(i + 1));
                assert(bv.skip(i as int).skip(1) =~= bv.skip(i + 1));
            }
            match bytes_cmp(&self.components[i], &other.components[i]) {
                Order::Less => {
                    proof {
                        assert(bytes_lt(av[i as int], bv[i as int]));
                        lemma_bytes_lt_trichotomy(av[i as int], bv[i as int]);
                    }
                    return Order::Less;
                },
                Order::Greater => {
                    proof {
                        assert(bytes_lt(bv[i as int], av[i as int]));
                        lemma_bytes_lt_trichotomy(bv[i as int], av[i as int]);
                    }
                    return Order::Greater;
                },
                Order::Equal => {
                    proof {
                        assert(av[i as int] =~= bv[i as int]);
                        lemma_bytes_lt_trichotomy(av[i as int], bv[i as int]);
                        if av.len() == bv.len() {
                            if av.skip(i as int) =~~= bv.skip(i as int) {
                                assert(av.skip(i + 1) =~~= bv.skip(i + 1));
                            }
                            if av.skip(i + 1) =~~= bv.skip(i + 1) {
                                assert forall|j: int|
                                    0 <= j < av.skip(i as int).len() implies av.skip(i as int)[j]
                                    =~= bv.skip(i as int)[j] by {
                                    if j > 0 {
                                        assert(av.skip(i + 1)[j - 1] =~= bv.skip(i + 1)[j - 1]);
                                    }
                                }
                                assert(av.skip(i as int) =~~= bv.skip(i as int));
                            }
                        }
                    }
                    i = i + 1;
                },
            }
        }
        if self.components.len() < other.components.len() {
            proof {
                assert(av.skip(n as int).len() == 0 && bv.skip(n as int).len() > 0);
            }
            Order::Less
        } else if other.components.len() < self.components.len() {
            proof {
                assert(bv.skip(n as int).len() == 0 && av.skip(n as int).len() > 0);
            }
            Order::Greater
        } else {
            proof {
                assert(av.skip(n as int) =~~= bv.skip(n as int));
            }
            Order::Equal
        }
    }

    pub fn eq_path(&self, other: &RelPath) -> (r: bool)
        ensures
            r <==> self@ =~~= other@,
    {
        matches!(self.cmp(other), Order::Equal)
    }

    /// Whether `prefix` is an ancestor of this path or the path itself.
    pub fn starts_with(&self, prefix: &RelPath) -> (r: bool)
        ensures
            r <==> path_is_prefix(prefix@, self@),
    {
        if prefix.components.len() > self.components.len() {
            return false;
        }
        let mut i: usize = 0;
        while i < prefix.components.len()
            invariant
                i <= prefix@.len(),
                prefix@.len() <= self@.len(),
                forall|j: int| 0 <= j < i ==> prefix@[j] =~= self@[j],
            decreases prefix@.len() - i,
        {
            match bytes_cmp(&prefix.components[i], &self.components[i]) {
                Order::Equal => {
                    proof {
                        assert(prefix@[i as int] =~= self@[i as int]);
                    }
                    i = i + 1;
                },
                _ => {
                    proof {
                        lemma_bytes_lt_trichotomy(prefix@[i as int], self@[i as int]);
                        assert(!(prefix@[i as int] =~= self@[i as int]));
                    }
                    return false;
                },
            }
        }
        true
    }

    /// The parent directory; `None` for the root.
    pub fn parent(&self) -> (r: Option<RelPath>)
        ensures
            self@.len() == 0 ==> r is None,
            self@.len() > 0 ==> (r matches Some(p) && p@ =~~= self@.subrange(
                0,
                self@.len() - 1,
            )),
    {
        if self.components.len() == 0 {
            None
        } else {
            let mut p = self.clone_path();
            p.components.pop();
            proof {
                assert(p@ =~~= self@.subrange(0, self@.len() - 1));
            }
            Some(p)
        }
    }

    /// The final component; `None` for the root.
    pub fn file_name(&self) -> (r: Option<&Vec<u8>>)
        ensures
            self@.len() == 0 ==> r is None,
            self@.len() > 0 ==> (r matches Some(c) && c@ =~= self@.last()),
    {
        if self.components.len() == 0 {
            None
        } else {
            Some(&self.components[self.components.len() - 1])
        }
    }

    /// This path extended by all components of `suffix`.
    pub fn join(&self, suffix: &RelPath) -> (r: RelPath)
        ensures
            r@ =~~= self@ + suffix@,
    {
        let mut r = self.clone_path();
        let ghost base = self@;
        let ghost extra = suffix@;
        let mut k: usize = 0;
        while k < suffix.components.len()
            invariant
                k <= extra.len(),
                extra == suffix@,
                r.components@.len() == base.len() + k,
                forall|j: int| 0 <= j < base.len() ==> #[trigger] r.components@[j]@ =~= base[j],
                forall|j: int|
                    0 <= j < k ==> #[trigger] r.components@[base.len() + j]@ =~= extra[j],
            decreases extra.len() - k,
        {
            let c = clone_bytes(&suffix.components[k]);
            r.components.push(c);
            k = k + 1;
        }
        proof {
            assert forall|j: int| 0 <= j < r@.len() implies r@[j] =~= (base + extra)[j] by {
                if j < base.len() {
                    assert(r.components@[j]@ =~= base[j]);
                } else {
                    assert(r.components@[base.len() + (j - base.len())]@ =~= extra[
                        j - base.len()
                    ]);
                }
            }
            assert(r@ =~~= base + extra);
        }
        r
    }

    /// Removes a leading ancestor; `None` when `prefix` is not an ancestor.
    pub fn strip_prefix(&self, prefix: &RelPath) -> (r: Option<RelPath>)
        ensures
            path_is_prefix(prefix@, self@) ==> (r matches Some(p) && p@ =~~= self@.skip(
                prefix@.len() as int,
            )),
            !path_is_prefix(prefix@, self@) ==> r is None,
    {
        if !self.starts_with(prefix) {
            return None;
        }
        let mut components: Vec<Vec<u8>> = Vec::new();
        let mut i: usize = prefix.components.len();
        let ghost start = prefix@.len() as int;
        while i < self.components.len()
            invariant
                start <= i <= self.components@.len(),
                start == prefix@.len(),
                components@.len() == i - start,
                forall|j: int|
                    0 <= j < components@.len() ==> #[trigger] components@[j]@ =~= self@[start + j],
            decreases self.components@.len() - i,
        {
            let c = clone_bytes(&self.components[i]);
            components.push(c);
            i = i + 1;
        }
        let r = RelPath { components };
        proof {
            assert forall|j: int| 0 <= j < r@.len() implies r@[j] =~= self@.skip(start)[j] by {
                assert(r.components@[j]@ =~= self@[start + j]);
            }
            assert(r@ =~~= self@.skip(start));
        }
        Some(r)
    }

    /// The first `k` components of this path.
    pub fn prefix_path(&self, k: usize) -> (r: RelPath)
        requires
            k <= self@.len(),
        ensures
            r@ =~~= self@.subrange(0, k as int),
    {
        let mut components: Vec<Vec<u8>> = Vec::new();
        let mut i: usize = 0;
        while i < k
            invariant
                i <= k <= self.components@.len(),
                components@.len() == i,
                forall|j: int| 0 <= j < i ==> components@[j]@ =~= self.components@[j]@,
            decreases k - i,
        {
            components.push(clone_bytes(&self.components[i]));
            i = i + 1;
        }
        let r = RelPath { components };
        proof {
            assert forall|j: int| 0 <= j < r@.len() implies r@[j] =~= self@.subrange(
                0,
                k as int,
            )[j] by {
                assert(r.components@[j]@ =~= self.components@[j]@);
            }
            assert(r@ =~~= self@.subrange(0, k as int));
        }
        r
    }

    /// Parses a separator-joined relative path. Empty input is the root;
    /// any other input parses exactly when every separator-delimited
    /// component is well formed (non-empty, no current- or
    /// parent-directory marker), and then yields those components.
    pub fn parse(s: &str) -> (r: Option<RelPath>)
        ensures
            s.spec_bytes().len() == 0 ==> (r matches Some(p) && p@ =~~= Seq::<Seq<u8>>::empty()),
            s.spec_bytes().len() > 0 && path_wf(split_components(s.spec_bytes())) ==> (r
                matches Some(p) && p@ =~~= split_components(s.spec_bytes())),
            s.spec_bytes().len() > 0 && !path_wf(split_components(s.spec_bytes())) ==> r is None,
    {
        let bytes_slice = s.as_bytes();
        let mut bytes: Vec<u8> = Vec::new();
        let mut bi: usize = 0;
        while bi < bytes_slice.len()
            invariant
                bi <= bytes_slice@.len(),
                bytes@ =~= bytes_slice@.subrange(0, bi as int),
            decreases bytes_slice@.len() - bi,
        {
            bytes.push(bytes_slice[bi]);
            bi = bi + 1;
        }
        proof {
            assert(bytes@ =~= s.spec_bytes());
        }
        Self::parse_bytes(&bytes)
    }

    /// Parses a separator-delimited relative path from raw bytes, under
    /// the same rule as `parse`.
    pub fn parse_bytes(bytes: &Vec<u8>) -> (r: Option<RelPath>)
        ensures
            bytes@.len() == 0 ==> (r matches Some(p) && p@ =~~= Seq::<Seq<u8>>::empty()),
            bytes@.len() > 0 && path_wf(split_components(bytes@)) ==> (r matches Some(p) && p@
                =~~= split_components(bytes@)),
            bytes@.len() > 0 && !path_wf(split_components(bytes@)) ==> r is None,
    {
        let mut components: Vec<Vec<u8>> = Vec::new();
        let mut current: Vec<u8> = Vec::new();
        let mut i: usize = 0;
        if bytes.len() == 0 {
            let r = RelPath { components };
            proof {
                assert(r@ =~~= Seq::<Seq<u8>>::empty());
            }
            return Some(r);
        }
        let ghost bv = bytes@;
        let ghost split = split_components(bv);
        let ghost mut s: int = 0;
        proof {
            assert(bv.skip(0) =~= bv);
            assert(split =~~= eview_bytes(components@) + split_components(bv.skip(0)));
        }
        while i < bytes.len()
            invariant
                0 <= s <= i <= bv.len(),
                bv == bytes@,
                split == split_components(bv),
                current@ =~= bv.subrange(s, i as int),
                forall|j: int| s <= j < i ==> bv[j] != 47u8,
                forall|j: int|
                    0 <= j < components@.len() ==> #[trigger] component_wf(components@[j]@),
                split =~~= eview_bytes(components@) + split_components(bv.skip(s)),
            decreases bv.len() - i,
        {
            let ghost cs_before = components@;
            let b = bytes[i];
            if b == 47u8 {
                proof {
                    lemma_split_at_sep(bv, s, i as int);
                    lemma_split_nonempty(bv.skip(i + 1));
                    assert(split[cs_before.len() as int] =~= current@);
                }
                if !Self::push_component(&mut components, current) {
                    proof {
                        assert(!component_wf(split[cs_before.len() as int]));
                        assert(!path_wf(split));
                    }
                    return None;
                }
                proof {
                    assert(eview_bytes(components@) =~~= eview_bytes(cs_before).push(current@));
                    assert(split =~~= eview_bytes(components@) + split_components(
                        bv.skip(i + 1),
                    ));
                    s = i + 1;
                }
                current = Vec::new();
                proof {
                    assert(current@ =~= bv.subrange(s, i + 1));
                }
            } else {
                current.push(b);
                proof {
                    assert(current@ =~= bv.subrange(s, i + 1));
                }
            }
            i = i + 1;
        }
        let ghost cs_before = components@;
        proof {
            lemma_split_tail(bv, s);
            assert(split[cs_before.len() as int] =~= current@);
        }
        if !Self::push_component(&mut components, current) {
            proof {
                assert(!component_wf(split[cs_before.len() as int]));
                assert(!path_wf(split));
            }
            return None;
        }
        let r = RelPath { components };
        proof {
            assert(eview_bytes(r.components@) =~~= eview_bytes(cs_before).push(
                bv.subrange(s, bv.len() as int),
            ));
            assert(r@ =~~= eview_bytes(r.components@));
            assert(r@ =~~= split);
            assert forall|j: int| 0 <= j < split.len() implies #[trigger] component_wf(
                split[j],
            ) by {
                assert(component_wf(r.components@[j]@));
                assert(r@[j] =~= r.components@[j]@);
            }
        }
        Some(r)
    }

    /// Commits one component: accepted exactly when well formed, and then
    /// appended.
    fn push_component(components: &mut Vec<Vec<u8>>, current: Vec<u8>) -> (ok: bool)
        requires
            forall|j: int|
                0 <= j < old(components)@.len() ==> #[trigger] component_wf(
                    old(components)@[j]@,
                ),
            forall|j: int| 0 <= j < current@.len() ==> current@[j] != 47u8,
        ensures
            ok <==> component_wf(current@),
            ok ==> final (components)@ =~= old(components)@.push(current),
            !ok ==> final (components)@ =~= old(components)@,
            forall|j: int|
                0 <= j < final (components)@.len() ==> #[trigger] component_wf(
                    final (components)@[j]@,
                ),
    {
        if current.len() == 0 {
            return false;
        }
        if current.len() == 1 && current[0] == 46u8 {
            proof {
                assert(current@ =~= seq![46u8]);
            }
            return false;
        }
        if current.len() == 2 && current[0] == 46u8 && current[1] == 46u8 {
            proof {
                assert(current@ =~= seq![46u8, 46u8]);
            }
            return false;
        }
        proof {
            if current@ =~= seq![46u8] {
                assert(current@.len() == 1 && current@[0] == 46u8);
            }
            if current@ =~= seq![46u8, 46u8] {
                assert(current@.len() == 2 && current@[0] == 46u8 && current@[1] == 46u8);
            }
            assert(component_wf(current@));
        }
        components.push(current);
        true
    }
}

} // verus!
