use vstd::prelude::*;

verus! {

broadcast use vstd::seq_lib::group_to_multiset_ensures;

/// The value, in sign-magnitude form, of a 64-bit IEEE-754 bit pattern:
/// the magnitude bits, negated when the sign bit is set. On patterns that
/// are not NaN, floats compare as these integers do (both zeros are 0).
pub open spec fn sign_magnitude(bits: u64) -> int {
    if bits >= 0x8000_0000_0000_0000 {
        -(bits - 0x8000_0000_0000_0000)
    } else {
        bits as int
    }
}

/// The key of a 64-bit IEEE-754 bit pattern: keys compare as the
/// sign-magnitude values of the patterns, with negative zero just below
/// positive zero.
pub open spec fn order_key_spec(bits: u64) -> int {
    if bits >= 0x8000_0000_0000_0000 {
        sign_magnitude(bits) - 1
    } else {
        sign_magnitude(bits)
    }
}

/// The ordering key of the float whose bit pattern is `bits`.
pub fn order_key(bits: u64) -> (r: i64)
    ensures
        r == order_key_spec(bits),
{
    if bits >= 0x8000_0000_0000_0000 {
        let magnitude = bits - 0x8000_0000_0000_0000;
        -(magnitude as i64) - 1
    } else {
        bits as i64
    }
}

/// Keys keep the order of the values they stand for.
pub proof fn lemma_order_key_monotonic(a: u64, b: u64)
    requires
        sign_magnitude(a) < sign_magnitude(b),
    ensures
        order_key_spec(a) < order_key_spec(b),
{
}

/// An intersection of a ray with a shape.
///
/// `key` stands for the ray parameter `t` at which the ray meets the shape:
/// keys are ordered as the parameters they stand for, so a smaller key is an
/// earlier point along the ray. `object` is the index of the shape in its world.
#[derive(Clone, Copy, Debug, PartialEq, Eq, Structural)]
pub struct Intersection {
    pub key: i64,
    pub object: usize,
}

/// The order in which intersections are sorted: by key, then by object.
pub open spec fn precedes(a: Intersection, b: Intersection) -> bool {
    a.key < b.key || (a.key == b.key && a.object <= b.object)
}

/// True when `s` is sorted by `precedes`.
pub open spec fn sorted(s: Seq<Intersection>) -> bool {
    forall|a: int, b: int| 0 <= a < b < s.len() ==> precedes(#[trigger] s[a], #[trigger] s[b])
}

/// True when `h` is the hit among `s`: the first, in sorted order, of the
/// intersections whose key is at least `threshold`, or none when there is no
/// such intersection.
pub open spec fn is_hit_of(s: Seq<Intersection>, threshold: i64, h: Option<Intersection>) -> bool {
    match h {
        None => forall|i: int| 0 <= i < s.len() ==> (#[trigger] s[i]).key < threshold,
        Some(c) => {
            &&& s.contains(c)
            &&& c.key >= threshold
            &&& forall|i: int|
                0 <= i < s.len() && (#[trigger] s[i]).key >= threshold ==> precedes(c, s[i])
        },
    }
}

fn before(a: &Intersection, b: &Intersection) -> (r: bool)
    ensures
        r == precedes(*a, *b),
{
    a.key < b.key || (a.key == b.key && a.object <= b.object)
}

/// The intersections of a ray with the shapes of a world.
pub struct Intersections {
    items: Vec<Intersection>,
}

impl View for Intersections {
    type V = Seq<Intersection>;

    closed spec fn view(&self) -> Seq<Intersection> {
        self.items@
    }
}

impl Intersections {
    /// An empty collection.
    pub fn new() -> (r: Self)
        ensures
            r@ == Seq::<Intersection>::empty(),
    {
        Intersections { items: Vec::new() }
    }

    /// The number of intersections held.
    pub fn len(&self) -> (r: usize)
        ensures
            r == self@.len(),
    {
        self.items.len()
    }

    /// The intersection at position `i`, if there is one.
    pub fn get(&self, i: usize) -> (r: Option<Intersection>)
        ensures
            i < self@.len() ==> r == Some(self@[i as int]),
            i >= self@.len() ==> r is None,
    {
        if i < self.items.len() {
            Some(self.items[i])
        } else {
            None
        }
    }

    /// Adds `elem` at the end.
    pub fn add(&mut self, elem: Intersection)
        ensures
            final(self)@ == old(self)@.push(elem),
    {
        self.items.push(elem);
    }

    /// Moves every intersection of `other` to the end of this collection.
    pub fn append(&mut self, other: Intersections)
        ensures
            final(self)@ == old(self)@ + other@,
    {
        let mut other = other;
        self.items.append(&mut other.items);
    }

    /// Sorts the intersections by key (then by object), keeping the same
    /// intersections.
    pub fn sort(&mut self)
        ensures
            sorted(final(self)@),
            final(self)@.to_multiset() == old(self)@.to_multiset(),
    {
        let n = self.items.len();
        let mut i: usize = 1;
        while i < n
            invariant
                n == self.items@.len(),
                1 <= i || n == 0,
                i <= n || n == 0,
                forall|a: int, b: int|
                    0 <= a < b < i && b < n ==> precedes(
                        #[trigger] self.items@[a],
                        #[trigger] self.items@[b],
                    ),
                self.items@.to_multiset() == old(self)@.to_multiset(),
            decreases n - i,
        {
            let mut j: usize = i;
            while j > 0 && !before(&self.items[j - 1], &self.items[j])
                invariant
                    n == self.items@.len(),
                    0 <= j <= i < n,
                    forall|a: int, b: int|
                        0 <= a < b <= i && a != j && b != j ==> precedes(
                            #[trigger] self.items@[a],
                            #[trigger] self.items@[b],
                        ),
                    forall|b: int|
                        j < b <= i ==> precedes(self.items@[j as int], #[trigger] self.items@[b]),
                    self.items@.to_multiset() == old(self)@.to_multiset(),
                decreases j,
            {
                let x = self.items[j - 1];
                let y = self.items[j];
                let ghost s0 = self.items@;
                self.items.set(j - 1, y);
                self.items.set(j, x);
                proof {
                    let s1 = s0.update(j - 1, y);
                    assert(s1.to_multiset() == s0.to_multiset().insert(y).remove(x));
                    assert(self.items@ == s1.update(j as int, x));
                    assert(self.items@.to_multiset() == s1.to_multiset().insert(x).remove(y));
                    assert(self.items@.to_multiset() =~= s0.to_multiset());
                }
                j = j - 1;
            }
            i = i + 1;
        }
    }

    /// Sorts the intersections and returns the hit: the first whose key is at
    /// least `threshold`, or none when every key lies below it.
    pub fn hit(&mut self, threshold: i64) -> (r: Option<Intersection>)
        ensures
            is_hit_of(old(self)@, threshold, r),
            sorted(final(self)@),
            final(self)@.to_multiset() == old(self)@.to_multiset(),
    {
        self.sort();
        let n = self.items.len();
        let mut i: usize = 0;
        while i < n
            invariant
                n == self.items@.len(),
                i <= n,
                sorted(self.items@),
                self.items@.to_multiset() == old(self)@.to_multiset(),
                forall|k: int| 0 <= k < i ==> (#[trigger] self.items@[k]).key < threshold,
            decreases n - i,
        {
            if self.items[i].key >= threshold {
                let c = self.items[i];
                proof {
                    assert(is_hit_of(self.items@, threshold, Some(c)));
                    lemma_hit_depends_on_contents(self.items@, old(self)@, threshold, Some(c));
                }
                return Some(c);
            }
            i = i + 1;
        }
        proof {
            lemma_hit_depends_on_contents(self.items@, old(self)@, threshold, None);
        }
        None
    }
}

/// The hit depends on which intersections a collection holds, not on their order.
pub proof fn lemma_hit_depends_on_contents(
    s1: Seq<Intersection>,
    s2: Seq<Intersection>,
    threshold: i64,
    h: Option<Intersection>,
)
    requires
        s1.to_multiset() == s2.to_multiset(),
        is_hit_of(s1, threshold, h),
    ensures
        is_hit_of(s2, threshold, h),
{
    assert forall|x: Intersection| s2.contains(x) implies s1.contains(x) by {
        assert(s2.to_multiset().count(x) > 0);
        assert(s1.to_multiset().count(x) > 0);
    }
    match h {
        None => {
            assert forall|i: int| 0 <= i < s2.len() implies (#[trigger] s2[i]).key < threshold by {
                assert(s2.contains(s2[i]));
                assert(s1.contains(s2[i]));
            }
        },
        Some(c) => {
            assert(s1.to_multiset().count(c) > 0);
            assert(s2.to_multiset().count(c) > 0);
            assert forall|i: int| 0 <= i < s2.len() && (#[trigger] s2[i]).key >= threshold implies precedes(
                c,
                s2[i],
            ) by {
                assert(s2.contains(s2[i]));
                assert(s1.contains(s2[i]));
            }
        },
    }
}

/// Among a given collection there is at most one hit.
pub proof fn lemma_hit_unique(
    s: Seq<Intersection>,
    threshold: i64,
    h1: Option<Intersection>,
    h2: Option<Intersection>,
)
    requires
        is_hit_of(s, threshold, h1),
        is_hit_of(s, threshold, h2),
    ensures
        h1 == h2,
{
    match (h1, h2) {
        (Some(a), Some(b)) => {
            assert(precedes(a, b) && precedes(b, a));
        },
        (Some(a), None) => {
            assert(s.contains(a));
        },
        (None, Some(b)) => {
            assert(s.contains(b));
        },
        (None, None) => {},
    }
}

/// Asking a collection for its hit twice gives the same intersection both
/// times: the first call leaves behind a collection `s2` that holds the same
/// intersections as the original `s1` (it only reorders them), and the hit of
/// each is the same.
pub proof fn hit_is_idempotent(
    s1: Seq<Intersection>,
    s2: Seq<Intersection>,
    threshold: i64,
    h1: Option<Intersection>,
    h2: Option<Intersection>,
)
    requires
        s2.to_multiset() == s1.to_multiset(),
        is_hit_of(s1, threshold, h1),
        is_hit_of(s2, threshold, h2),
    ensures
        h1 == h2,
{
    lemma_hit_depends_on_contents(s1, s2, threshold, h1);
    lemma_hit_unique(s2, threshold, h1, h2);
}

} // verus!
