//! Nearest-symbol lookup over an externally supplied address table, for
//! symbolicating against a running system's symbol list instead of a static
//! ELF object.

use vstd::prelude::*;

verus! {

/// The greatest index whose address is at or below `addr`, or `-1` when
/// every address lies above `addr`.
pub open spec fn locate(addrs: Seq<usize>, addr: usize) -> int
    decreases addrs.len(),
{
    if addrs.len() == 0 {
        -1
    } else if addrs.last() <= addr {
        addrs.len() - 1
    } else {
        locate(addrs.drop_last(), addr)
    }
}

pub proof fn lemma_locate_props(addrs: Seq<usize>, addr: usize)
    ensures
        -1 <= locate(addrs, addr) < addrs.len(),
        locate(addrs, addr) >= 0 ==> addrs[locate(addrs, addr)] <= addr,
        forall|k: int| locate(addrs, addr) < k < addrs.len() ==> addrs[k] > addr,
    decreases addrs.len(),
{
    if addrs.len() > 0 && addrs.last() > addr {
        lemma_locate_props(addrs.drop_last(), addr);
        assert(forall|k: int|
            0 <= k < addrs.len() - 1 ==> addrs[k] == addrs.drop_last()[k]);
    }
}

/// A symbol table of a live system: addresses in nondecreasing order, one
/// name per address.
pub struct KAllSyms {
    addrs: Vec<usize>,
    names: Vec<String>,
}

impl KAllSyms {
    /// The addresses, in table order.
    pub closed spec fn spec_addrs(self) -> Seq<usize> {
        self.addrs@
    }

    /// The names, in table order.
    pub closed spec fn spec_names(self) -> Seq<Seq<char>> {
        self.names@.map_values(|s: String| s@)
    }

    /// A table is well formed when each address has a name and the
    /// addresses never decrease.
    pub open spec fn wf(self) -> bool {
        &&& self.spec_addrs().len() == self.spec_names().len()
        &&& forall|i: int, j: int|
            0 <= i <= j < self.spec_addrs().len() ==> self.spec_addrs()[i] <= self.spec_addrs()[j]
    }

    /// Build a table from parallel address and name lists. Fails exactly
    /// when the lists differ in length or the addresses decrease somewhere.
    pub fn new(addrs: Vec<usize>, names: Vec<String>) -> (r: Option<KAllSyms>)
        ensures
            match r {
                Some(t) => t.wf() && t.spec_addrs() == addrs@ && t.spec_names()
                    == names@.map_values(|s: String| s@),
                None => addrs@.len() != names@.len() || exists|i: int|
                    0 < i < addrs@.len() && addrs@[i - 1] > #[trigger] addrs@[i],
            },
    {
        if addrs.len() != names.len() {
            return None;
        }
        let mut k: usize = 1;
        while k < addrs.len()
            invariant
                1 <= k,
                k <= addrs@.len() || addrs@.len() == 0,
                forall|i: int, j: int| 0 <= i <= j < k && j < addrs@.len() ==> addrs@[i] <= addrs@[j],
            decreases addrs@.len() - k,
        {
            if addrs[k - 1] > addrs[k] {
                return None;
            }
            proof {
                assert(forall|i: int, j: int|
                    0 <= i <= j < k + 1 ==> addrs@[i] <= addrs@[j]) by {
                    assert(forall|i: int| 0 <= i < k ==> #[trigger] addrs@[i] <= addrs@[k - 1]);
                }
            }
            k = k + 1;
        }
        Some(KAllSyms { addrs, names })
    }

    /// How many symbols the table holds.
    pub fn len(&self) -> (r: usize)
        ensures
            r == self.spec_addrs().len(),
    {
        self.addrs.len()
    }
}

/// Nearest-symbol query: the name of the symbol with the greatest address
/// at or below `addr`, with `addr`'s distance from that address; `None`
/// exactly when the table is empty or every address lies above `addr`.
pub fn safe_search<'a>(table: &'a KAllSyms, addr: usize) -> (r: Option<(&'a str, usize)>)
    requires
        table.wf(),
    ensures
        ({
            let idx = locate(table.spec_addrs(), addr);
            match r {
                None => idx < 0,
                Some((name, off)) => idx >= 0 && name@ == table.spec_names()[idx] && off == addr
                    - table.spec_addrs()[idx],
            }
        }),
{
    proof {
        lemma_locate_props(table.spec_addrs(), addr);
    }
    let n = table.addrs.len();
    let mut lo: usize = 0;
    let mut hi: usize = n;
    while lo < hi
        invariant
            lo <= hi <= n,
            n == table.spec_addrs().len(),
            table.wf(),
            forall|k: int| 0 <= k < lo ==> table.spec_addrs()[k] <= addr,
            forall|k: int| hi <= k < n ==> table.spec_addrs()[k] > addr,
        decreases hi - lo,
    {
        let mid = lo + (hi - lo) / 2;
        if table.addrs[mid] <= addr {
            lo = mid + 1;
        } else {
            hi = mid;
        }
    }
    if lo == 0 {
        proof {
            lemma_locate_props(table.spec_addrs(), addr);
        }
        return None;
    }
    let idx = lo - 1;
    proof {
        lemma_locate_props(table.spec_addrs(), addr);
        let a = table.spec_addrs();
        let loc = locate(a, addr);
        assert(a[idx as int] <= addr);
        if loc < idx as int {
            assert(a[idx as int] > addr);
            assert(false);
        }
        if loc > idx as int {
            assert(a[loc] <= addr);
            assert(a[loc] > addr);
            assert(false);
        }
    }
    let name: &'a str = table.names[idx].as_str();
    Some((name, addr - table.addrs[idx]))
}

} // verus!
