//! The addresses a call sends voice to.
//!
//! There must never exist two identical addresses in the book; they are kept in the
//! standard library's order of socket addresses.

use vstd::prelude::*;

use crate::addr::{lemma_rank_injective, SocketAddr};

verus! {

/// The addresses are in strictly increasing order.
pub open spec fn sorted(s: Seq<SocketAddr>) -> bool {
    forall|i: int, j: int| 0 <= i < j < s.len() ==> #[trigger] s[i].rank() < #[trigger] s[j].rank()
}

/// A strictly increasing sequence of addresses holds no address twice.
pub proof fn lemma_sorted_no_duplicates(s: Seq<SocketAddr>)
    requires
        sorted(s),
    ensures
        s.no_duplicates(),
{
    assert forall|i: int, j: int| 0 <= i < s.len() && 0 <= j < s.len() && i != j implies s[i]
        != s[j] by {
        if i < j {
            assert(s[i].rank() < s[j].rank());
        } else {
            assert(s[j].rank() < s[i].rank());
        }
    }
}

/// A strictly increasing sequence of addresses is fixed by the addresses it holds: two
/// such sequences that hold the same addresses are equal.
pub proof fn lemma_sorted_by_contents(s: Seq<SocketAddr>, t: Seq<SocketAddr>)
    requires
        sorted(s),
        sorted(t),
        forall|a: SocketAddr| s.contains(a) <==> t.contains(a),
    ensures
        s == t,
    decreases s.len(),
{
    if s.len() == 0 {
        if t.len() > 0 {
            assert(t.contains(t[0]));
        }
        assert(s =~= t);
    } else {
        assert(s.contains(s[0]));
        let k = choose|k: int| 0 <= k < t.len() && t[k] == s[0];
        assert(t.contains(t[0]));
        let j = choose|j: int| 0 <= j < s.len() && s[j] == t[0];
        if k > 0 {
            assert(t[0].rank() < t[k].rank());
            if j > 0 {
                assert(s[0].rank() < s[j].rank());
            }
            assert(false);
        }
        let s1 = s.drop_first();
        let t1 = t.drop_first();
        assert forall|a: SocketAddr| s1.contains(a) <==> t1.contains(a) by {
            if s1.contains(a) {
                let x = choose|x: int| 0 <= x < s1.len() && s1[x] == a;
                assert(s[x + 1] == a);
                assert(s[0].rank() < s[x + 1].rank());
                assert(s.contains(a));
                let y = choose|y: int| 0 <= y < t.len() && t[y] == a;
                assert(y != 0);
                assert(t1[y - 1] == a);
            }
            if t1.contains(a) {
                let x = choose|x: int| 0 <= x < t1.len() && t1[x] == a;
                assert(t[x + 1] == a);
                assert(t[0].rank() < t[x + 1].rank());
                assert(t.contains(a));
                let y = choose|y: int| 0 <= y < s.len() && s[y] == a;
                assert(y != 0);
                assert(s1[y - 1] == a);
            }
        }
        assert(sorted(s1)) by {
            assert forall|x: int, y: int| 0 <= x < y < s1.len() implies #[trigger] s1[x].rank()
                < #[trigger] s1[y].rank() by {
                assert(s[x + 1].rank() < s[y + 1].rank());
            }
        }
        assert(sorted(t1)) by {
            assert forall|x: int, y: int| 0 <= x < y < t1.len() implies #[trigger] t1[x].rank()
                < #[trigger] t1[y].rank() by {
                assert(t[x + 1].rank() < t[y + 1].rank());
            }
        }
        lemma_sorted_by_contents(s1, t1);
        assert(s =~= seq![s[0]] + s1);
        assert(t =~= seq![t[0]] + t1);
    }
}

/// The book after adding `addr` to `before`, as [`AddressBook::add_address`] leaves it.
pub open spec fn is_added(before: Seq<SocketAddr>, addr: SocketAddr, after: Seq<SocketAddr>) -> bool {
    &&& sorted(after)
    &&& forall|a: SocketAddr| #[trigger] after.contains(a) <==> before.contains(a) || a == addr
}

/// The book after taking `addr` out of `before`, as [`AddressBook::remove_address`] leaves it.
pub open spec fn is_removed(before: Seq<SocketAddr>, addr: SocketAddr, after: Seq<SocketAddr>) -> bool {
    &&& sorted(after)
    &&& forall|a: SocketAddr| #[trigger] after.contains(a) <==> before.contains(a) && a != addr
}

/// Adding an address that the book already holds leaves the book as it was.
pub proof fn lemma_add_present_is_noop(before: Seq<SocketAddr>, addr: SocketAddr, after: Seq<SocketAddr>)
    requires
        sorted(before),
        before.contains(addr),
        is_added(before, addr, after),
    ensures
        after == before,
{
    lemma_sorted_by_contents(after, before);
}

/// Adding an address that the book does not hold and then removing it gives back the book.
pub proof fn lemma_add_then_remove(
    before: Seq<SocketAddr>,
    addr: SocketAddr,
    added: Seq<SocketAddr>,
    after: Seq<SocketAddr>,
)
    requires
        sorted(before),
        !before.contains(addr),
        is_added(before, addr, added),
        is_removed(added, addr, after),
    ensures
        after == before,
{
    lemma_sorted_by_contents(after, before);
}

/// Removing an address and adding it again gives back a book that held it.
pub proof fn lemma_remove_then_add(
    before: Seq<SocketAddr>,
    addr: SocketAddr,
    removed: Seq<SocketAddr>,
    after: Seq<SocketAddr>,
)
    requires
        sorted(before),
        before.contains(addr),
        is_removed(before, addr, removed),
        is_added(removed, addr, after),
    ensures
        after == before,
{
    lemma_sorted_by_contents(after, before);
}

/// The set of addresses of a call.
#[derive(Debug)]
pub struct AddressBook {
    addrs: Vec<SocketAddr>,
}

impl View for AddressBook {
    type V = Seq<SocketAddr>;

    closed spec fn view(&self) -> Seq<SocketAddr> {
        self.addrs@
    }
}

impl AddressBook {
    #[verifier::type_invariant]
    spec fn inv(self) -> bool {
        sorted(self.addrs@)
    }

    /// An empty book.
    pub fn new() -> (b: AddressBook)
        ensures
            b@ == Seq::<SocketAddr>::empty(),
    {
        AddressBook { addrs: Vec::new() }
    }

    /// The addresses, in order.
    pub fn get_addresses(&self) -> (v: &Vec<SocketAddr>)
        ensures
            v@ == self@,
            sorted(v@),
    {
        proof {
            use_type_invariant(self);
        }
        &self.addrs
    }

    /// Adds `addr`; an address already in the book stays there once.
    pub fn add_address(&mut self, addr: SocketAddr)
        ensures
            is_added(old(self)@, addr, final(self)@),
            final(self)@.len() == old(self)@.len() + (if old(self)@.contains(addr) {
                0int
            } else {
                1int
            }),
    {
        proof {
            use_type_invariant(&*self);
        }
        let mut v: Vec<SocketAddr> = Vec::new();
        std::mem::swap(&mut v, &mut self.addrs);
        let ghost old_v = v@;
        let mut i: usize = 0;
        while i < v.len()
            invariant
                v@ == old_v,
                sorted(old_v),
                i <= v@.len(),
                forall|k: int| 0 <= k < i ==> #[trigger] v@[k].rank() < addr.rank(),
            ensures
                i <= v@.len(),
                i < v@.len() ==> v@[i as int].rank() >= addr.rank(),
                forall|k: int| 0 <= k < i ==> #[trigger] v@[k].rank() < addr.rank(),
            decreases v@.len() - i,
        {
            if !v[i].lt(&addr) {
                break;
            }
            i = i + 1;
        }
        if i < v.len() && v[i].same(&addr) {
            assert(old_v.contains(addr));
        } else {
            proof {
                assert(i < v@.len() ==> v@[i as int].rank() > addr.rank()) by {
                    if i < v@.len() && v@[i as int].rank() == addr.rank() {
                        lemma_rank_injective(v@[i as int], addr);
                    }
                }
                assert(!old_v.contains(addr)) by {
                    if old_v.contains(addr) {
                        let k = choose|k: int| 0 <= k < old_v.len() && old_v[k] == addr;
                        if k < i {
                            assert(v@[k].rank() < addr.rank());
                        } else {
                            assert(old_v[i as int].rank() <= old_v[k].rank());
                        }
                    }
                }
            }
            v.insert(i, addr);
            proof {
                let n = v@;
                assert forall|a: SocketAddr| #[trigger]
                    n.contains(a) <==> old_v.contains(a) || a == addr by {
                    if n.contains(a) {
                        let k = choose|k: int| 0 <= k < n.len() && n[k] == a;
                        if k < i {
                            assert(old_v[k] == a);
                        } else if k > i {
                            assert(old_v[k - 1] == a);
                        }
                    }
                    if old_v.contains(a) {
                        let k = choose|k: int| 0 <= k < old_v.len() && old_v[k] == a;
                        if k < i {
                            assert(n[k] == a);
                        } else {
                            assert(n[k + 1] == a);
                        }
                    }
                    if a == addr {
                        assert(n[i as int] == a);
                    }
                }
                assert forall|x: int, y: int| 0 <= x < y < n.len() implies #[trigger] n[x].rank()
                    < #[trigger] n[y].rank() by {
                    if y < i {
                        assert(old_v[x].rank() < old_v[y].rank());
                    } else if y == i {
                        assert(v@[x].rank() < addr.rank());
                    } else if x < i {
                        assert(old_v[x].rank() < addr.rank());
                        assert(old_v[i as int].rank() <= old_v[y - 1].rank());
                    } else if x == i {
                        assert(old_v[i as int].rank() <= old_v[y - 1].rank());
                    } else {
                        assert(old_v[x - 1].rank() < old_v[y - 1].rank());
                    }
                }
            }
        }
        self.addrs = v;
    }

    /// Removes `addr` and returns it; `None` where it is not in the book.
    pub fn remove_address(&mut self, addr: &SocketAddr) -> (r: Option<SocketAddr>)
        ensures
            r == (if old(self)@.contains(*addr) {
                Some(*addr)
            } else {
                None
            }),
            is_removed(old(self)@, *addr, final(self)@),
            final(self)@.len() == old(self)@.len() - (if old(self)@.contains(*addr) {
                1int
            } else {
                0int
            }),
    {
        proof {
            use_type_invariant(&*self);
        }
        let mut v: Vec<SocketAddr> = Vec::new();
        std::mem::swap(&mut v, &mut self.addrs);
        let ghost old_v = v@;
        proof {
            lemma_sorted_no_duplicates(old_v);
        }
        let mut i: usize = 0;
        while i < v.len()
            invariant
                v@ == old_v,
                i <= v@.len(),
                forall|k: int| 0 <= k < i ==> #[trigger] v@[k] != *addr,
            ensures
                i <= v@.len(),
                i < v@.len() ==> v@[i as int] == *addr,
                forall|k: int| 0 <= k < i ==> #[trigger] v@[k] != *addr,
            decreases v@.len() - i,
        {
            if v[i].same(addr) {
                break;
            }
            i = i + 1;
        }
        if i == v.len() {
            self.addrs = v;
            return None;
        }
        let removed = v.remove(i);
        proof {
            let n = v@;
            assert forall|a: SocketAddr| #[trigger]
                n.contains(a) <==> old_v.contains(a) && a != *addr by {
                if n.contains(a) {
                    let k = choose|k: int| 0 <= k < n.len() && n[k] == a;
                    if k < i {
                        assert(old_v[k] == a);
                    } else {
                        assert(old_v[k + 1] == a);
                        assert(old_v[k + 1] != old_v[i as int]);
                    }
                }
                if old_v.contains(a) && a != *addr {
                    let k = choose|k: int| 0 <= k < old_v.len() && old_v[k] == a;
                    if k < i {
                        assert(n[k] == a);
                    } else {
                        assert(k != i);
                        assert(n[k - 1] == a);
                    }
                }
            }
            assert forall|x: int, y: int| 0 <= x < y < n.len() implies #[trigger] n[x].rank()
                < #[trigger] n[y].rank() by {
                if y < i {
                    assert(old_v[x].rank() < old_v[y].rank());
                } else if x < i {
                    assert(old_v[x].rank() < old_v[y + 1].rank());
                } else {
                    assert(old_v[x + 1].rank() < old_v[y + 1].rank());
                }
            }
        }
        self.addrs = v;
        Some(removed)
    }

    /// Removes every address.
    pub fn clear_addresses(&mut self)
        ensures
            final(self)@ == Seq::<SocketAddr>::empty(),
    {
        self.addrs = Vec::new();
    }
}

} // verus!
