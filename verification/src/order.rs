//! The tree-entry ordering rule: entries compare as if every tree-kind
//! entry had a virtual trailing `/`.

use vstd::prelude::*;

verus! {

/// The byte that separates path components and that trees virtually end in.
pub const SLASH: u8 = 47;

/// Lexicographic comparison of two byte sequences: -1, 0 or 1.
pub open spec fn cmp_bytes(a: Seq<u8>, b: Seq<u8>) -> int
    decreases a.len(),
{
    if a.len() == 0 && b.len() == 0 {
        0
    } else if a.len() == 0 {
        -1
    } else if b.len() == 0 {
        1
    } else if a[0] < b[0] {
        -1
    } else if a[0] > b[0] {
        1
    } else {
        cmp_bytes(a.skip(1), b.skip(1))
    }
}

/// A usable entry name: non-empty and free of `/`.
pub open spec fn valid_name(n: Seq<u8>) -> bool {
    n.len() > 0 && forall|i: int| 0 <= i < n.len() ==> n[i] != SLASH
}

/// The key an entry is ordered by: its name, with a `/` appended for trees.
pub open spec fn okey(name: Seq<u8>, is_tree: bool) -> Seq<u8> {
    if is_tree {
        name.push(SLASH)
    } else {
        name
    }
}

/// The ordering rule itself, as a three-way comparison.
pub open spec fn entry_cmp(a_name: Seq<u8>, a_tree: bool, b_name: Seq<u8>, b_tree: bool) -> int {
    cmp_bytes(okey(a_name, a_tree), okey(b_name, b_tree))
}

pub proof fn lemma_cmp_bytes_refl(a: Seq<u8>)
    ensures
        cmp_bytes(a, a) == 0,
    decreases a.len(),
{
    if a.len() > 0 {
        lemma_cmp_bytes_refl(a.skip(1));
    }
}

pub proof fn lemma_cmp_bytes_range(a: Seq<u8>, b: Seq<u8>)
    ensures
        -1 <= cmp_bytes(a, b) <= 1,
    decreases a.len(),
{
    if a.len() > 0 && b.len() > 0 && a[0] == b[0] {
        lemma_cmp_bytes_range(a.skip(1), b.skip(1));
    }
}

pub proof fn lemma_cmp_bytes_eq(a: Seq<u8>, b: Seq<u8>)
    requires
        cmp_bytes(a, b) == 0,
    ensures
        a == b,
    decreases a.len(),
{
    if a.len() > 0 && b.len() > 0 {
        lemma_cmp_bytes_eq(a.skip(1), b.skip(1));
        assert(a =~= seq![a[0]] + a.skip(1));
        assert(b =~= seq![b[0]] + b.skip(1));
    } else {
        assert(a =~= b);
    }
}

pub proof fn lemma_cmp_bytes_antisym(a: Seq<u8>, b: Seq<u8>)
    ensures
        cmp_bytes(b, a) == -cmp_bytes(a, b),
    decreases a.len(),
{
    if a.len() > 0 && b.len() > 0 && a[0] == b[0] {
        lemma_cmp_bytes_antisym(a.skip(1), b.skip(1));
    }
}

pub proof fn lemma_cmp_bytes_trans(a: Seq<u8>, b: Seq<u8>, c: Seq<u8>)
    requires
        cmp_bytes(a, b) == -1,
        cmp_bytes(b, c) == -1,
    ensures
        cmp_bytes(a, c) == -1,
    decreases a.len(),
{
    if a.len() > 0 && b.len() > 0 && c.len() > 0 {
        if a[0] == b[0] && b[0] == c[0] {
            lemma_cmp_bytes_trans(a.skip(1), b.skip(1), c.skip(1));
        }
    }
}

/// Equal ordering keys of valid names mean the same name and the same kind.
pub proof fn lemma_okey_injective(n1: Seq<u8>, t1: bool, n2: Seq<u8>, t2: bool)
    requires
        valid_name(n1),
        valid_name(n2),
        okey(n1, t1) == okey(n2, t2),
    ensures
        n1 == n2,
        t1 == t2,
{
    if t1 == t2 {
        if t1 {
            assert(n1 =~= okey(n1, true).take(okey(n1, true).len() - 1));
            assert(n2 =~= okey(n2, true).take(okey(n2, true).len() - 1));
        }
    } else if t1 {
        // n1 + `/` == n2 would put a `/` at the end of n2
        assert(okey(n2, t2)[okey(n2, t2).len() - 1] != SLASH);
        assert(okey(n1, t1)[okey(n1, t1).len() - 1] == SLASH);
    } else {
        assert(okey(n1, t1)[okey(n1, t1).len() - 1] != SLASH);
        assert(okey(n2, t2)[okey(n2, t2).len() - 1] == SLASH);
    }
}

/// Compares an entry, given by name and kind, against a probe, per the rule:
/// the first `min` bytes decide lexicographically; after them each side
/// contributes its real next byte, a virtual `/` for a tree that ended, or
/// nothing (ordered least) for a non-tree that ended.
pub fn cmp_entry_with_name(
    a_name: &Vec<u8>,
    a_tree: bool,
    b_name: &Vec<u8>,
    b_tree: bool,
) -> (r: i8)
    requires
        valid_name(a_name@),
        valid_name(b_name@),
    ensures
        r as int == entry_cmp(a_name@, a_tree, b_name@, b_tree),
{
    let ghost ka = okey(a_name@, a_tree);
    let ghost kb = okey(b_name@, b_tree);
    let na = a_name.len();
    let nb = b_name.len();
    let common = if na < nb { na } else { nb };
    proof {
        assert(ka.skip(0) =~= ka);
        assert(kb.skip(0) =~= kb);
    }
    let mut i: usize = 0;
    while i < common
        invariant
            i <= common,
            common == if na < nb { na } else { nb },
            na == a_name@.len(),
            nb == b_name@.len(),
            ka == okey(a_name@, a_tree),
            kb == okey(b_name@, b_tree),
            valid_name(a_name@),
            valid_name(b_name@),
            cmp_bytes(ka.skip(i as int), kb.skip(i as int)) == cmp_bytes(ka, kb),
        decreases common - i,
    {
        let x = a_name[i];
        let y = b_name[i];
        if x < y {
            return -1;
        }
        if x > y {
            return 1;
        }
        proof {
            assert(ka.skip(i as int).skip(1) =~= ka.skip(i + 1));
            assert(kb.skip(i as int).skip(1) =~= kb.skip(i + 1));
        }
        i += 1;
    }
    // the first `common` bytes agree; the next byte of each side decides
    let a_next: Option<u8> = if na > common {
        Some(a_name[common])
    } else if a_tree {
        Some(SLASH)
    } else {
        None
    };
    let b_next: Option<u8> = if nb > common {
        Some(b_name[common])
    } else if b_tree {
        Some(SLASH)
    } else {
        None
    };
    let ghost ta = ka.skip(common as int);
    let ghost tb = kb.skip(common as int);
    proof {
        if na > common {
            assert(ta[0] == a_name@[common as int]);
            assert(ta.len() > 0);
        } else if a_tree {
            assert(ta =~= seq![SLASH]);
        } else {
            assert(ta =~= Seq::<u8>::empty());
        }
        if nb > common {
            assert(tb[0] == b_name@[common as int]);
            assert(tb.len() > 0);
        } else if b_tree {
            assert(tb =~= seq![SLASH]);
        } else {
            assert(tb =~= Seq::<u8>::empty());
        }
    }
    match (a_next, b_next) {
        (None, None) => {
            proof {
                assert(cmp_bytes(ta, tb) == 0);
            }
            0
        },
        (None, Some(_)) => {
            proof {
                assert(ta.len() == 0 && tb.len() > 0);
                assert(cmp_bytes(ta, tb) == -1);
            }
            -1
        },
        (Some(_), None) => {
            proof {
                assert(ta.len() > 0 && tb.len() == 0);
                assert(cmp_bytes(ta, tb) == 1);
            }
            1
        },
        (Some(x), Some(y)) => {
            if x < y {
                proof {
                    assert(ta[0] == x && tb[0] == y);
                    assert(cmp_bytes(ta, tb) == -1);
                }
                -1
            } else if y < x {
                proof {
                    assert(ta[0] == x && tb[0] == y);
                    assert(cmp_bytes(ta, tb) == 1);
                }
                1
            } else {
                // equal next bytes: both sides must have ended as trees,
                // since at most one side still has real bytes and a real
                // byte is never `/`
                proof {
                    assert(ta =~= seq![SLASH]);
                    assert(tb =~= seq![SLASH]);
                    assert(ta.skip(1) =~= Seq::<u8>::empty());
                    assert(tb.skip(1) =~= Seq::<u8>::empty());
                    assert(cmp_bytes(ta.skip(1), tb.skip(1)) == 0);
                    assert(cmp_bytes(ta, tb) == 0);
                }
                0
            }
        },
    }
}

} // verus!
