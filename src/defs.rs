//! The set of transitions attributed to one public fragment, kept sorted
//! so that what is written depends on the set alone.
use vstd::prelude::*;
use crate::text::{decimal, push_decimal};

verus! {

/// A transition pair `(from, to)` in forward orientation, with the tag that
/// marks it as the last pair of a fragment's slice of a path.
pub type SubstrDef = (usize, usize, bool);

/// Lexicographic order on pairs, an untagged pair before a tagged one.
pub open spec fn def_lt(a: SubstrDef, b: SubstrDef) -> bool {
    a.0 < b.0 || (a.0 == b.0 && (a.1 < b.1 || (a.1 == b.1 && !a.2 && b.2)))
}

pub open spec fn strictly_sorted(s: Seq<SubstrDef>) -> bool {
    forall|i: int, j: int| 0 <= i < j < s.len() ==> def_lt(#[trigger] s[i], #[trigger] s[j])
}

fn def_eq(a: SubstrDef, b: SubstrDef) -> (r: bool)
    ensures
        r == (a == b),
{
    a.0 == b.0 && a.1 == b.1 && a.2 == b.2
}

fn def_less(a: SubstrDef, b: SubstrDef) -> (r: bool)
    ensures
        r == def_lt(a, b),
{
    a.0 < b.0 || (a.0 == b.0 && (a.1 < b.1 || (a.1 == b.1 && !a.2 && b.2)))
}

/// A deduplicated set of transition pairs.
#[derive(Debug, Clone)]
pub struct SubstrDefs {
    items: Vec<SubstrDef>,
}

impl SubstrDefs {
    /// The members in increasing order.
    pub closed spec fn seq(self) -> Seq<SubstrDef> {
        self.items@
    }

    pub open spec fn view(self) -> Set<SubstrDef> {
        self.seq().to_set()
    }

    /// The members are held in strictly increasing order.
    pub open spec fn wf(self) -> bool {
        strictly_sorted(self.seq())
    }

    /// An empty set.
    pub fn new() -> (r: SubstrDefs)
        ensures
            r.wf(),
            r.seq().len() == 0,
            r@ == Set::<SubstrDef>::empty(),
    {
        let r = SubstrDefs { items: Vec::new() };
        assert(r.seq().to_set() =~= Set::<SubstrDef>::empty());
        r
    }

    /// The members in increasing order.
    pub fn items(&self) -> (r: &Vec<SubstrDef>)
        ensures
            r@ == self.seq(),
    {
        &self.items
    }

    /// Whether `x` is a member.
    pub fn contains(&self, x: SubstrDef) -> (r: bool)
        ensures
            r == self@.contains(x),
    {
        let mut i: usize = 0;
        while i < self.items.len()
            invariant
                i <= self.items@.len(),
                forall|k: int| 0 <= k < i ==> self.items@[k] != x,
            decreases self.items.len() - i,
        {
            if def_eq(self.items[i], x) {
                assert(self.seq().to_set().contains(self.items@[i as int]));
                return true;
            }
            i += 1;
        }
        false
    }

    /// Adds `x`.
    pub fn insert(&mut self, x: SubstrDef)
        requires
            old(self).wf(),
        ensures
            final(self).wf(),
            final(self)@ == old(self)@.insert(x),
    {
        let mut i: usize = 0;
        while i < self.items.len() && def_less(self.items[i], x)
            invariant
                i <= self.items@.len(),
                strictly_sorted(self.items@),
                forall|k: int| 0 <= k < i ==> def_lt(#[trigger] self.items@[k], x),
            decreases self.items.len() - i,
        {
            i += 1;
        }
        if i < self.items.len() && def_eq(self.items[i], x) {
            assert(self.seq().to_set().contains(x));
            assert(old(self)@.insert(x) =~= old(self)@);
            return;
        }
        let ghost before = self.items@;
        proof {
            assert(i < before.len() ==> def_lt(x, before[i as int]));
            assert forall|k: int| i <= k < before.len() implies def_lt(x, #[trigger] before[k]) by {
                if k > i {
                    assert(def_lt(before[i as int], before[k]));
                }
            }
        }
        let mut items = Vec::new();
        std::mem::swap(&mut items, &mut self.items);
        items.insert(i, x);
        proof {
            assert(items@ == before.insert(i as int, x));
            assert forall|a: int, b: int| 0 <= a < b < items@.len() implies def_lt(#[trigger] items@[a], #[trigger] items@[b]) by {
                if a < i && b < i {
                    assert(def_lt(before[a], before[b]));
                } else if a < i && b == i {
                } else if a < i {
                    assert(def_lt(before[a], before[b - 1]));
                } else if a == i {
                } else {
                    assert(def_lt(before[a - 1], before[b - 1]));
                }
            }
            assert(items@.to_set() =~= before.to_set().insert(x)) by {
                assert forall|y: SubstrDef| items@.to_set().contains(y) implies before.to_set().insert(x).contains(y) by {
                    let k = choose|k: int| 0 <= k < items@.len() && items@[k] == y;
                    if k < i {
                        assert(before[k] == y);
                    } else if k > i {
                        assert(before[k - 1] == y);
                    }
                }
                assert forall|y: SubstrDef| before.to_set().insert(x).contains(y) implies items@.to_set().contains(y) by {
                    if y == x {
                        assert(items@[i as int] == x);
                    } else {
                        let k = choose|k: int| 0 <= k < before.len() && before[k] == y;
                        if k < i {
                            assert(items@[k] == y);
                        } else {
                            assert(items@[k + 1] == y);
                        }
                    }
                }
            }
        }
        *self = SubstrDefs { items };
    }
}

/// The line `<from> <to>` of a pair.
pub open spec fn pair_line(d: SubstrDef) -> Seq<u8> {
    decimal(d.0 as nat) + seq![32u8] + decimal(d.1 as nat) + seq![10u8]
}

/// One line per distinct pair of the sorted members `s` (a pair held both
/// tagged and untagged is written once).
pub open spec fn pair_lines(s: Seq<SubstrDef>) -> Seq<u8>
    decreases s.len(),
{
    if s.len() == 0 {
        seq![]
    } else {
        let rest = pair_lines(s.drop_last());
        if s.len() >= 2 && s[s.len() - 2].0 == s.last().0 && s[s.len() - 2].1 == s.last().1 {
            rest
        } else {
            rest + pair_line(s.last())
        }
    }
}

/// The substring-definition file of a public fragment: its declared
/// maximum size, the start state, the largest input position, then its pairs.
pub open spec fn substr_text(max_size: nat, max_byte_size: nat, defs: SubstrDefs) -> Seq<u8> {
    decimal(max_size) + seq![10u8, 48u8, 10u8] + decimal((max_byte_size - 1) as nat) + seq![10u8]
        + pair_lines(defs.seq())
}

/// Writes the substring-definition file of a public fragment.
pub fn substr_defs_text(defs: &SubstrDefs, max_size: usize, max_byte_size: usize) -> (r: Vec<u8>)
    requires
        max_byte_size >= 1,
    ensures
        r@ == substr_text(max_size as nat, max_byte_size as nat, *defs),
{
    let mut out: Vec<u8> = Vec::new();
    push_decimal(&mut out, max_size);
    out.push(10u8);
    out.push(48u8);
    out.push(10u8);
    push_decimal(&mut out, max_byte_size - 1);
    out.push(10u8);
    let ghost head = out@;
    let items = defs.items();
    let mut i: usize = 0;
    while i < items.len()
        invariant
            i <= items@.len(),
            out@ == head + pair_lines(items@.subrange(0, i as int)),
        decreases items.len() - i,
    {
        let d = items[i];
        let ghost before = out@;
        let dup = i > 0 && items[i - 1].0 == d.0 && items[i - 1].1 == d.1;
        if !dup {
            push_decimal(&mut out, d.0);
            out.push(32u8);
            push_decimal(&mut out, d.1);
            out.push(10u8);
        }
        proof {
            let sub = items@.subrange(0, i + 1);
            assert(sub.drop_last() =~= items@.subrange(0, i as int));
            assert(out@ =~= head + pair_lines(sub));
        }
        i += 1;
    }
    proof {
        assert(items@.subrange(0, i as int) =~= items@);
        assert(out@ =~= substr_text(max_size as nat, max_byte_size as nat, *defs));
    }
    out
}

/// Two strictly sorted sequences with the same members are equal.
proof fn lemma_sorted_unique(a: Seq<SubstrDef>, b: Seq<SubstrDef>)
    requires
        strictly_sorted(a),
        strictly_sorted(b),
        a.to_set() == b.to_set(),
    ensures
        a == b,
    decreases a.len(),
{
    if a.len() == 0 {
        if b.len() > 0 {
            assert(b.to_set().contains(b[0]));
        }
        assert(a =~= b);
    } else {
        assert(a.to_set().contains(a[0]));
        assert(b.len() > 0);
        assert(b.to_set().contains(b[0]));
        let i = choose|i: int| 0 <= i < a.len() && a[i] == b[0];
        let j = choose|j: int| 0 <= j < b.len() && b[j] == a[0];
        if i > 0 {
            assert(def_lt(a[0], a[i]));
            if j > 0 {
                assert(def_lt(b[0], b[j]));
            }
        }
        assert(a[0] == b[0]);
        let a1 = a.drop_first();
        let b1 = b.drop_first();
        assert(strictly_sorted(a1));
        assert(strictly_sorted(b1));
        assert(a1.to_set() =~= b1.to_set()) by {
            assert forall|y: SubstrDef| a1.to_set().contains(y) implies b1.to_set().contains(y) by {
                let k = choose|k: int| 0 <= k < a1.len() && a1[k] == y;
                assert(def_lt(a[0], a[k + 1]));
                assert(b.to_set().contains(y));
                let m = choose|m: int| 0 <= m < b.len() && b[m] == y;
                assert(m != 0);
                assert(b1[m - 1] == y);
            }
            assert forall|y: SubstrDef| b1.to_set().contains(y) implies a1.to_set().contains(y) by {
                let k = choose|k: int| 0 <= k < b1.len() && b1[k] == y;
                assert(def_lt(b[0], b[k + 1]));
                assert(a.to_set().contains(y));
                let m = choose|m: int| 0 <= m < a.len() && a[m] == y;
                assert(m != 0);
                assert(a1[m - 1] == y);
            }
        }
        lemma_sorted_unique(a1, b1);
        assert(a =~= b) by {
            assert forall|k: int| 0 <= k < a.len() implies a[k] == b[k] by {
                if k > 0 {
                    assert(a[k] == a1[k - 1]);
                    assert(b[k] == b1[k - 1]);
                }
            }
        }
    }
}

/// The substring-definition file depends on the set of pairs alone, not on
/// the order in which they were found.
pub proof fn lemma_text_depends_on_set(a: SubstrDefs, b: SubstrDefs, max_size: nat, max_byte_size: nat)
    requires
        a.wf(),
        b.wf(),
        a@ == b@,
    ensures
        substr_text(max_size, max_byte_size, a) == substr_text(max_size, max_byte_size, b),
{
    lemma_sorted_unique(a.seq(), b.seq());
}

} // verus!
