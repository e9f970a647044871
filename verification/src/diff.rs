use vstd::prelude::*;

use crate::definitions::{Symbol, SymbolKind, SymbolView, symbols_view};
use crate::report::{ChangeType, SymbolDiff, SymbolDiffView, diffs_view};
use crate::text::{
    chars_lt,
    chars_less,
    chars_of,
    lemma_chars_lt_irreflexive,
    lemma_chars_lt_total,
    lemma_chars_lt_transitive,
};

verus! {

/// The index of the last symbol named `n`, or -1 when there is none.
pub open spec fn last_index(s: Seq<SymbolView>, n: Seq<char>) -> int
    decreases s.len(),
{
    if s.len() == 0 {
        -1
    } else if s.last().name == n {
        s.len() - 1
    } else {
        last_index(s.drop_last(), n)
    }
}

/// The last symbol named `n`: when a name occurs more than once, the last
/// occurrence is the one that counts.
pub open spec fn last_named(s: Seq<SymbolView>, n: Seq<char>) -> Option<SymbolView> {
    let k = last_index(s, n);
    if k >= 0 {
        Some(s[k])
    } else {
        None
    }
}

pub proof fn lemma_last_index(s: Seq<SymbolView>, n: Seq<char>)
    ensures
        -1 <= last_index(s, n) < s.len(),
        last_index(s, n) >= 0 ==> s[last_index(s, n)].name == n,
        forall|t: int| last_index(s, n) < t < s.len() ==> s[t].name != n,
    decreases s.len(),
{
    if s.len() > 0 {
        let d = s.drop_last();
        lemma_last_index(d, n);
        assert forall|t: int| last_index(s, n) < t < s.len() implies s[t].name != n by {
            if t < s.len() - 1 {
                assert(s[t] == d[t]);
            }
        }
    }
}

/// Whether the kind is left out of a report that hides read-only symbols.
pub open spec fn is_hidden(hide_read_only: bool, k: SymbolKind) -> bool {
    hide_read_only && (k == SymbolKind::Code || k == SymbolKind::RoData)
}

/// The report line for the name `n` when comparing `from` with `to`:
/// a symbol only in `from` is removed (its size counts negative), one only in
/// `to` is added, one in both is changed when the sizes differ, and one with
/// equal sizes gives no line. With `hide_read_only`, a name whose symbol in
/// `from` (or, for an added one, in `to`) is code or read-only data gives no
/// line.
pub open spec fn expected_diff(
    from: Seq<SymbolView>,
    to: Seq<SymbolView>,
    hide_read_only: bool,
    n: Seq<char>,
) -> Option<SymbolDiffView> {
    match last_named(from, n) {
        Some(a) => if is_hidden(hide_read_only, a.kind) {
            None
        } else {
            match last_named(to, n) {
                Some(b) => if a.size != b.size {
                    Some(
                        SymbolDiffView {
                            name: n,
                            change_type: ChangeType::Changed,
                            size_diff: ((b.size as i64) - (a.size as i64)) as i64,
                        },
                    )
                } else {
                    None
                },
                None => Some(
                    SymbolDiffView {
                        name: n,
                        change_type: ChangeType::Removed,
                        size_diff: (-(a.size as i64)) as i64,
                    },
                ),
            }
        },
        None => match last_named(to, n) {
            Some(b) => if is_hidden(hide_read_only, b.kind) {
                None
            } else {
                Some(
                    SymbolDiffView {
                        name: n,
                        change_type: ChangeType::Added,
                        size_diff: b.size as i64,
                    },
                )
            },
            None => None,
        },
    }
}

/// Whether every size difference of the comparison fits in an `i64`.
pub open spec fn diff_fits(from: Seq<SymbolView>, to: Seq<SymbolView>, hide_read_only: bool) -> bool {
    forall|n: Seq<char>|
        #![trigger last_named(from, n)]
        match (last_named(from, n), last_named(to, n)) {
            (Some(a), Some(b)) => !is_hidden(hide_read_only, a.kind) && a.size != b.size ==> i64::MIN
                <= (b.size as i64) - (a.size as i64) <= i64::MAX,
            (Some(a), None) => !is_hidden(hide_read_only, a.kind) ==> (a.size as i64) != i64::MIN,
            _ => true,
        }
}

/// Whether the names strictly increase.
pub open spec fn sorted_by_name(d: Seq<SymbolDiffView>) -> bool {
    forall|i: int, j: int| 0 <= i < j < d.len() ==> chars_lt(d[i].name, d[j].name)
}

pub open spec fn has_name(d: Seq<SymbolDiffView>, n: Seq<char>) -> bool {
    exists|k: int| 0 <= k < d.len() && d[k].name == n
}

/// Whether `d` is the report of the comparison: one line for each name that
/// has one, in increasing order of names.
pub open spec fn is_diff_of(
    d: Seq<SymbolDiffView>,
    from: Seq<SymbolView>,
    to: Seq<SymbolView>,
    hide_read_only: bool,
) -> bool {
    &&& sorted_by_name(d)
    &&& forall|k: int|
        0 <= k < d.len() ==> expected_diff(from, to, hide_read_only, #[trigger] d[k].name) == Some(
            d[k],
        )
    &&& forall|n: Seq<char>|
        #[trigger] expected_diff(from, to, hide_read_only, n) is Some ==> has_name(d, n)
}

/// The index of the last symbol in `s` named `name`.
fn find_last(s: &Vec<Symbol>, name: &String) -> (r: Option<usize>)
    ensures
        match r {
            Some(k) => k as int == last_index(symbols_view(s@), name@),
            None => last_index(symbols_view(s@), name@) == -1,
        },
{
    let ghost sv = symbols_view(s@);
    proof {
        lemma_last_index(sv, name@);
    }
    assert(sv.len() == s@.len());
    let mut j = s.len();
    while j > 0
        invariant
            j <= s.len(),
            sv == symbols_view(s@),
            forall|t: int| j <= t < s.len() ==> (#[trigger] sv[t]).name != name@,
        decreases j,
    {
        assert(sv[j - 1] == s@[j - 1]@);
        if s[j - 1].name == *name {
            let k = j - 1;
            proof {
                lemma_last_index(sv, name@);
                let li = last_index(sv, name@);
                if li < k {
                    assert(sv[k as int].name == name@);
                } else if li > k {
                    assert(sv[li].name != name@);
                }
            }
            return Some(k);
        }
        j -= 1;
    }
    proof {
        let li = last_index(sv, name@);
        if li >= 0 {
            assert(sv[li].name != name@);
        }
    }
    None
}

/// Inserts `d` into `diffs`, kept in increasing order of names; returns
/// where it went.
fn insert_by_name(diffs: &mut Vec<SymbolDiff>, d: SymbolDiff) -> (p: usize)
    requires
        sorted_by_name(diffs_view(old(diffs)@)),
        !has_name(diffs_view(old(diffs)@), d.name@),
    ensures
        p <= old(diffs)@.len(),
        diffs_view(final(diffs)@) == diffs_view(old(diffs)@).insert(p as int, d@),
        sorted_by_name(diffs_view(final(diffs)@)),
{
    let ghost dv = diffs_view(diffs@);
    let dn = chars_of(d.name.as_str());
    let mut p: usize = 0;
    let mut stopped = false;
    assert(dv.len() == diffs@.len());
    while p < diffs.len() && !stopped
        invariant
            p <= diffs.len(),
            dv == diffs_view(diffs@),
            dv.len() == diffs@.len(),
            dn@ == d.name@,
            forall|k: int| 0 <= k < p ==> chars_lt((#[trigger] dv[k]).name, d.name@),
            stopped ==> p < diffs.len() && !chars_lt(dv[p as int].name, d.name@),
        decreases diffs.len() - p + (if stopped { 0int } else { 1int }),
    {
        let name_p = chars_of(diffs[p].name.as_str());
        assert(dv[p as int] == diffs@[p as int]@);
        if !chars_less(&name_p, &dn) {
            stopped = true;
        } else {
            p += 1;
        }
    }
    proof {
        if p < dv.len() {
            assert(!chars_lt(dv[p as int].name, d.name@));
            assert(dv[p as int].name != d.name@);
            lemma_chars_lt_total(dv[p as int].name, d.name@);
        }
        let nv = dv.insert(p as int, d@);
        assert forall|i: int, j: int| 0 <= i < j < nv.len() implies chars_lt(nv[i].name, nv[j].name) by {
            if j < p {
            } else if j == p {
            } else if i < p {
                // nv[i] = dv[i] < d < dv[p] <= dv[j - 1]
                if j - 1 > p {
                    lemma_chars_lt_transitive(d.name@, dv[p as int].name, dv[j - 1].name);
                }
                lemma_chars_lt_transitive(dv[i].name, d.name@, dv[j - 1].name);
            } else if i == p {
                if j - 1 > p {
                    lemma_chars_lt_transitive(d.name@, dv[p as int].name, dv[j - 1].name);
                }
            } else {
            }
        }
    }
    diffs.insert(p, d);
    assert(diffs_view(diffs@) =~= dv.insert(p as int, d@));
    p
}

/// The line for `a`, the last symbol of `from` with its name, when that
/// name is not hidden.
fn line_for_from_symbol(
    a: &Symbol,
    to_symbols: &Vec<Symbol>,
    Ghost(from): Ghost<Seq<SymbolView>>,
    hide_read_only: bool,
) -> (r: Option<SymbolDiff>)
    requires
        last_named(from, a.name@) == Some(a@),
        !is_hidden(hide_read_only, a.kind),
        diff_fits(from, symbols_view(to_symbols@), hide_read_only),
    ensures
        match r {
            Some(d) => expected_diff(from, symbols_view(to_symbols@), hide_read_only, a.name@)
                == Some(d@),
            None => expected_diff(from, symbols_view(to_symbols@), hide_read_only, a.name@) is None,
        },
{
    let ghost tv = symbols_view(to_symbols@);
    assert(tv.len() == to_symbols@.len());
    proof {
        lemma_last_index(tv, a.name@);
    }
    assert(match (last_named(from, a.name@), last_named(tv, a.name@)) {
        (Some(x), Some(y)) => !is_hidden(hide_read_only, x.kind) && x.size != y.size ==> i64::MIN
            <= (y.size as i64) - (x.size as i64) <= i64::MAX,
        (Some(x), None) => !is_hidden(hide_read_only, x.kind) ==> (x.size as i64) != i64::MIN,
        _ => true,
    });
    match find_last(to_symbols, &a.name) {
        Some(j) => {
            let b = &to_symbols[j];
            assert(tv[j as int] == b@);
            if a.size != b.size {
                Some(
                    SymbolDiff {
                        name: a.name.clone(),
                        change_type: ChangeType::Changed,
                        size_diff: (b.size as i64) - (a.size as i64),
                    },
                )
            } else {
                None
            }
        },
        None => Some(
            SymbolDiff {
                name: a.name.clone(),
                change_type: ChangeType::Removed,
                size_diff: -(a.size as i64),
            },
        ),
    }
}

proof fn lemma_has_name_after_insert(dv: Seq<SymbolDiffView>, p: int, d: SymbolDiffView, n: Seq<char>)
    requires
        0 <= p <= dv.len(),
        has_name(dv, n) || d.name == n,
    ensures
        has_name(dv.insert(p, d), n),
{
    let nv = dv.insert(p, d);
    if d.name == n {
        assert(nv[p].name == n);
    } else {
        let k = choose|k: int| 0 <= k < dv.len() && dv[k].name == n;
        if k < p {
            assert(nv[k].name == n);
        } else {
            assert(nv[k + 1].name == n);
        }
    }
}

/// Compares the symbols of two files and reports, in increasing order of
/// names, every symbol that was added, removed or changed in size. When a
/// name occurs more than once in a list, its last occurrence counts. With
/// `hide_read_only`, code and read-only data are left out.
pub fn run_diff(from_symbols: Vec<Symbol>, to_symbols: Vec<Symbol>, hide_read_only: bool) -> (diffs:
    Vec<SymbolDiff>)
    requires
        diff_fits(symbols_view(from_symbols@), symbols_view(to_symbols@), hide_read_only),
    ensures
        is_diff_of(
            diffs_view(diffs@),
            symbols_view(from_symbols@),
            symbols_view(to_symbols@),
            hide_read_only,
        ),
        forall|k: int|
            0 <= k < diffs@.len() ==> {
                let n = (#[trigger] diffs@[k]).name@;
                let fv = symbols_view(from_symbols@);
                let tv = symbols_view(to_symbols@);
                &&& diffs@[k].change_type == ChangeType::Changed <==> lists_name(fv, n) && lists_name(
                    tv,
                    n,
                )
                &&& diffs@[k].change_type == ChangeType::Added <==> !lists_name(fv, n)
                &&& diffs@[k].change_type == ChangeType::Removed <==> !lists_name(tv, n)
                &&& diffs@[k].change_type == ChangeType::Changed ==> size_in(fv, n) != size_in(tv, n)
            },
{
    let ghost fv = symbols_view(from_symbols@);
    let ghost tv = symbols_view(to_symbols@);
    let mut diffs: Vec<SymbolDiff> = Vec::new();
    assert(fv.len() == from_symbols@.len());
    assert(tv.len() == to_symbols@.len());
    assert(diffs_view(diffs@) =~= Seq::<SymbolDiffView>::empty());
    let mut i: usize = 0;
    while i < from_symbols.len()
        invariant
            i <= from_symbols.len(),
            fv == symbols_view(from_symbols@),
            tv == symbols_view(to_symbols@),
            fv.len() == from_symbols@.len(),
            tv.len() == to_symbols@.len(),
            diff_fits(fv, tv, hide_read_only),
            sorted_by_name(diffs_view(diffs@)),
            forall|k: int|
                0 <= k < diffs_view(diffs@).len() ==> expected_diff(
                    fv,
                    tv,
                    hide_read_only,
                    #[trigger] diffs_view(diffs@)[k].name,
                ) == Some(diffs_view(diffs@)[k]),
            forall|k: int|
                0 <= k < diffs_view(diffs@).len() ==> 0 <= last_index(
                    fv,
                    #[trigger] diffs_view(diffs@)[k].name,
                ) < i,
            forall|n: Seq<char>|
                #[trigger] expected_diff(fv, tv, hide_read_only, n) is Some && 0 <= last_index(
                    fv,
                    n,
                ) < i ==> has_name(diffs_view(diffs@), n),
        decreases from_symbols.len() - i,
    {
        let a = &from_symbols[i];
        assert(fv[i as int] == a@);
        proof {
            lemma_last_index(fv, a.name@);
        }
        let is_last = match find_last(&from_symbols, &a.name) {
            Some(k) => k == i,
            None => false,
        };
        let ghost dv = diffs_view(diffs@);
        if is_last && !(hide_read_only && (a.kind == SymbolKind::Code || a.kind == SymbolKind::RoData)) {
            match line_for_from_symbol(a, &to_symbols, Ghost(fv), hide_read_only) {
                Some(d) => {
                    proof {
                        if has_name(dv, d.name@) {
                            let k = choose|k: int| 0 <= k < dv.len() && dv[k].name == d.name@;
                            assert(0 <= last_index(fv, dv[k].name) < i);
                        }
                    }
                    let ghost dd = d@;
                    let p = insert_by_name(&mut diffs, d);
                    proof {
                        let nv = diffs_view(diffs@);
                        assert(nv == dv.insert(p as int, dd));
                        assert forall|k: int| 0 <= k < nv.len() implies expected_diff(
                            fv,
                            tv,
                            hide_read_only,
                            #[trigger] nv[k].name,
                        ) == Some(nv[k]) && 0 <= last_index(fv, nv[k].name) < i + 1 by {
                            if k < p {
                                assert(nv[k] == dv[k]);
                            } else if k > p {
                                assert(nv[k] == dv[k - 1]);
                            }
                        }
                        assert forall|n: Seq<char>|
                            #[trigger] expected_diff(fv, tv, hide_read_only, n) is Some && 0
                                <= last_index(fv, n) < i + 1 implies has_name(nv, n) by {
                            lemma_last_index(fv, n);
                            if last_index(fv, n) == i {
                                assert(n == a.name@);
                            }
                            lemma_has_name_after_insert(dv, p as int, dd, n);
                        }
                    }
                },
                None => {
                    assert forall|n: Seq<char>|
                        #[trigger] expected_diff(fv, tv, hide_read_only, n) is Some && 0 <= last_index(
                            fv,
                            n,
                        ) < i + 1 implies has_name(dv, n) by {
                        lemma_last_index(fv, n);
                        if last_index(fv, n) == i {
                            assert(n == a.name@);
                        }
                    }
                },
            }
        } else {
            assert forall|n: Seq<char>|
                #[trigger] expected_diff(fv, tv, hide_read_only, n) is Some && 0 <= last_index(
                    fv,
                    n,
                ) < i + 1 implies has_name(dv, n) by {
                lemma_last_index(fv, n);
                if last_index(fv, n) == i {
                    assert(n == a.name@);
                    assert(last_named(fv, n) == Some(a@));
                }
            }
        }
        i += 1;
    }
    proof {
        let dv = diffs_view(diffs@);
        assert forall|n: Seq<char>|
            #[trigger] expected_diff(fv, tv, hide_read_only, n) is Some && (last_index(fv, n) >= 0
                || 0 <= last_index(tv, n) < 0) implies has_name(dv, n) by {
            lemma_last_index(fv, n);
        }
    }
    let mut j: usize = 0;
    while j < to_symbols.len()
        invariant
            j <= to_symbols.len(),
            fv == symbols_view(from_symbols@),
            tv == symbols_view(to_symbols@),
            fv.len() == from_symbols@.len(),
            tv.len() == to_symbols@.len(),
            sorted_by_name(diffs_view(diffs@)),
            forall|k: int|
                0 <= k < diffs_view(diffs@).len() ==> expected_diff(
                    fv,
                    tv,
                    hide_read_only,
                    #[trigger] diffs_view(diffs@)[k].name,
                ) == Some(diffs_view(diffs@)[k]),
            forall|k: int|
                0 <= k < diffs_view(diffs@).len() ==> last_index(
                    fv,
                    #[trigger] diffs_view(diffs@)[k].name,
                ) >= 0 || 0 <= last_index(tv, diffs_view(diffs@)[k].name) < j,
            forall|n: Seq<char>|
                #[trigger] expected_diff(fv, tv, hide_read_only, n) is Some && (last_index(fv, n)
                    >= 0 || 0 <= last_index(tv, n) < j) ==> has_name(diffs_view(diffs@), n),
        decreases to_symbols.len() - j,
    {
        let b = &to_symbols[j];
        assert(tv[j as int] == b@);
        proof {
            lemma_last_index(tv, b.name@);
            lemma_last_index(fv, b.name@);
        }
        let is_last = match find_last(&to_symbols, &b.name) {
            Some(k) => k == j,
            None => false,
        };
        let ghost dv = diffs_view(diffs@);
        let in_from = find_last(&from_symbols, &b.name).is_some();
        if is_last && !in_from && !(hide_read_only && (b.kind == SymbolKind::Code || b.kind
            == SymbolKind::RoData)) {
            let d = SymbolDiff {
                name: b.name.clone(),
                change_type: ChangeType::Added,
                size_diff: b.size as i64,
            };
            assert(expected_diff(fv, tv, hide_read_only, b.name@) == Some(d@));
            proof {
                if has_name(dv, d.name@) {
                    let k = choose|k: int| 0 <= k < dv.len() && dv[k].name == d.name@;
                    assert(0 <= last_index(tv, dv[k].name) < j);
                }
            }
            let ghost dd = d@;
            let p = insert_by_name(&mut diffs, d);
            proof {
                let nv = diffs_view(diffs@);
                assert forall|k: int| 0 <= k < nv.len() implies expected_diff(
                    fv,
                    tv,
                    hide_read_only,
                    #[trigger] nv[k].name,
                ) == Some(nv[k]) && (last_index(fv, nv[k].name) >= 0 || 0 <= last_index(
                    tv,
                    nv[k].name,
                ) < j + 1) by {
                    if k < p {
                        assert(nv[k] == dv[k]);
                    } else if k > p {
                        assert(nv[k] == dv[k - 1]);
                    }
                }
                assert forall|n: Seq<char>|
                    #[trigger] expected_diff(fv, tv, hide_read_only, n) is Some && (last_index(
                        fv,
                        n,
                    ) >= 0 || 0 <= last_index(tv, n) < j + 1) implies has_name(nv, n) by {
                    lemma_last_index(tv, n);
                    if last_index(tv, n) == j && last_index(fv, n) < 0 {
                        assert(n == b.name@);
                    }
                    lemma_has_name_after_insert(dv, p as int, dd, n);
                }
            }
        } else {
            assert forall|n: Seq<char>|
                #[trigger] expected_diff(fv, tv, hide_read_only, n) is Some && (last_index(fv, n)
                    >= 0 || 0 <= last_index(tv, n) < j + 1) implies has_name(dv, n) by {
                lemma_last_index(tv, n);
                if last_index(tv, n) == j && last_index(fv, n) < 0 {
                    assert(n == b.name@);
                    assert(last_named(tv, n) == Some(b@));
                }
            }
        }
        j += 1;
    }
    proof {
        let dv = diffs_view(diffs@);
        assert forall|n: Seq<char>| #[trigger]
            expected_diff(fv, tv, hide_read_only, n) is Some implies has_name(dv, n) by {
            lemma_last_index(tv, n);
            lemma_last_index(fv, n);
        }
        lemma_change_type_by_presence(dv, fv, tv, hide_read_only);
        assert forall|k: int| 0 <= k < diffs@.len() implies dv[k] == (#[trigger] diffs@[k])@ by {}
    }
    diffs
}

/// Whether some symbol of `s` is named `n`.
pub open spec fn lists_name(s: Seq<SymbolView>, n: Seq<char>) -> bool {
    exists|i: int| 0 <= i < s.len() && s[i].name == n
}

proof fn lemma_lists_name(s: Seq<SymbolView>, n: Seq<char>)
    ensures
        lists_name(s, n) <==> last_named(s, n) is Some,
{
    lemma_last_index(s, n);
    if last_index(s, n) >= 0 {
        assert(s[last_index(s, n)].name == n);
    }
}

/// Law: a line's change type says in which lists its name occurs. It is
/// `Changed` exactly when the name is in both (the sizes then differ),
/// `Added` exactly when the name is not in `from` (the difference is then
/// the new size), and `Removed` exactly when it is not in `to` (the
/// difference is then the old size, negated).
pub proof fn lemma_change_type_by_presence(
    d: Seq<SymbolDiffView>,
    from: Seq<SymbolView>,
    to: Seq<SymbolView>,
    hide_read_only: bool,
)
    requires
        is_diff_of(d, from, to, hide_read_only),
    ensures
        forall|k: int|
            0 <= k < d.len() ==> {
                let n = (#[trigger] d[k]).name;
                &&& d[k].change_type == ChangeType::Changed <==> lists_name(from, n) && lists_name(to, n)
                &&& d[k].change_type == ChangeType::Added <==> !lists_name(from, n)
                &&& d[k].change_type == ChangeType::Removed <==> !lists_name(to, n)
                &&& d[k].change_type == ChangeType::Changed ==> size_in(from, n) != size_in(to, n)
                &&& d[k].change_type == ChangeType::Added ==> d[k].size_diff == (size_in(to, n) as i64)
                &&& d[k].change_type == ChangeType::Removed ==> d[k].size_diff == (-(size_in(
                    from,
                    n,
                ) as i64)) as i64
            },
{
    assert forall|k: int| 0 <= k < d.len() implies {
        let n = (#[trigger] d[k]).name;
        &&& d[k].change_type == ChangeType::Changed <==> lists_name(from, n) && lists_name(to, n)
        &&& d[k].change_type == ChangeType::Added <==> !lists_name(from, n)
        &&& d[k].change_type == ChangeType::Removed <==> !lists_name(to, n)
        &&& d[k].change_type == ChangeType::Changed ==> size_in(from, n) != size_in(to, n)
        &&& d[k].change_type == ChangeType::Added ==> d[k].size_diff == (size_in(to, n) as i64)
        &&& d[k].change_type == ChangeType::Removed ==> d[k].size_diff == (-(size_in(
            from,
            n,
        ) as i64)) as i64
    } by {
        let n = d[k].name;
        assert(expected_diff(from, to, hide_read_only, d[k].name) == Some(d[k]));
        lemma_lists_name(from, n);
        lemma_lists_name(to, n);
    }
}

/// Law: the report is determined by the two symbol lists; two sequences
/// that both meet `is_diff_of` for the same comparison are equal.
pub proof fn lemma_diff_unique(
    d1: Seq<SymbolDiffView>,
    d2: Seq<SymbolDiffView>,
    from: Seq<SymbolView>,
    to: Seq<SymbolView>,
    hide_read_only: bool,
)
    requires
        is_diff_of(d1, from, to, hide_read_only),
        is_diff_of(d2, from, to, hide_read_only),
    ensures
        d1 == d2,
    decreases d1.len() + d2.len(),
{
    if d1.len() == 0 || d2.len() == 0 {
        if d1.len() > 0 {
            assert(expected_diff(from, to, hide_read_only, d1[0].name) is Some);
        }
        if d2.len() > 0 {
            assert(expected_diff(from, to, hide_read_only, d2[0].name) is Some);
        }
        assert(d1 =~= d2);
    } else {
        lemma_sorted_same_lines_equal(d1, d2, |n: Seq<char>| expected_diff(from, to, hide_read_only, n));
    }
}

/// Two sequences sorted strictly by name, whose lines are the values of one
/// function of the name and which hold the same names, are equal.
proof fn lemma_sorted_same_lines_equal(
    d1: Seq<SymbolDiffView>,
    d2: Seq<SymbolDiffView>,
    line: spec_fn(Seq<char>) -> Option<SymbolDiffView>,
)
    requires
        sorted_by_name(d1),
        sorted_by_name(d2),
        forall|k: int| 0 <= k < d1.len() ==> line(#[trigger] d1[k].name) == Some(d1[k]),
        forall|k: int| 0 <= k < d2.len() ==> line(#[trigger] d2[k].name) == Some(d2[k]),
        forall|k: int| 0 <= k < d1.len() ==> has_name(d2, #[trigger] d1[k].name),
        forall|k: int| 0 <= k < d2.len() ==> has_name(d1, #[trigger] d2[k].name),
    ensures
        d1 == d2,
    decreases d1.len() + d2.len(),
{
    if d1.len() == 0 {
        if d2.len() > 0 {
            assert(has_name(d1, d2[0].name));
        }
        assert(d1 =~= d2);
    } else if d2.len() == 0 {
        assert(has_name(d2, d1[0].name));
    } else {
        // the first names agree: each is the smallest name of both
        assert(has_name(d2, d1[0].name));
        assert(has_name(d1, d2[0].name));
        let k1 = choose|k: int| 0 <= k < d2.len() && d2[k].name == d1[0].name;
        let k2 = choose|k: int| 0 <= k < d1.len() && d1[k].name == d2[0].name;
        if k1 > 0 {
            // d2[0] < d2[k1] = d1[0] <= d1[k2] = d2[0]
            if k2 > 0 {
                lemma_chars_lt_transitive(d2[0].name, d1[0].name, d1[k2].name);
            }
            lemma_chars_lt_irreflexive(d2[0].name);
        }
        assert(d1[0].name == d2[0].name);
        assert(d1[0] == d2[0]);
        let r1 = d1.drop_first();
        let r2 = d2.drop_first();
        assert forall|k: int| 0 <= k < r1.len() implies has_name(r2, #[trigger] r1[k].name) by {
            assert(r1[k] == d1[k + 1]);
            assert(has_name(d2, d1[k + 1].name));
            let t = choose|t: int| 0 <= t < d2.len() && d2[t].name == d1[k + 1].name;
            if t == 0 {
                assert(chars_lt(d1[0].name, d1[k + 1].name));
                lemma_chars_lt_irreflexive(d1[0].name);
            }
            assert(r2[t - 1].name == r1[k].name);
        }
        assert forall|k: int| 0 <= k < r2.len() implies has_name(r1, #[trigger] r2[k].name) by {
            assert(r2[k] == d2[k + 1]);
            assert(has_name(d1, d2[k + 1].name));
            let t = choose|t: int| 0 <= t < d1.len() && d1[t].name == d2[k + 1].name;
            if t == 0 {
                assert(chars_lt(d2[0].name, d2[k + 1].name));
                lemma_chars_lt_irreflexive(d2[0].name);
            }
            assert(r1[t - 1].name == r2[k].name);
        }
        assert forall|k: int| 0 <= k < r1.len() implies line(#[trigger] r1[k].name) == Some(r1[k]) by {
            assert(r1[k] == d1[k + 1]);
        }
        assert forall|k: int| 0 <= k < r2.len() implies line(#[trigger] r2[k].name) == Some(r2[k]) by {
            assert(r2[k] == d2[k + 1]);
        }
        lemma_sorted_same_lines_equal(r1, r2, line);
        assert(d1 =~= seq![d1[0]] + r1);
        assert(d2 =~= seq![d2[0]] + r2);
    }
}

/// Law: comparing a symbol list with itself reports nothing.
pub proof fn lemma_diff_with_itself(d: Seq<SymbolDiffView>, s: Seq<SymbolView>, hide_read_only: bool)
    requires
        is_diff_of(d, s, s, hide_read_only),
    ensures
        d.len() == 0,
{
    if d.len() > 0 {
        assert(expected_diff(s, s, hide_read_only, d[0].name) == Some(d[0]));
    }
}

/// The kind that decides whether the line for `n` is hidden: that of the
/// symbol in `from`, or of the one in `to` when `from` has none.
pub open spec fn line_kind(from: Seq<SymbolView>, to: Seq<SymbolView>, n: Seq<char>) -> SymbolKind {
    match last_named(from, n) {
        Some(a) => a.kind,
        None => match last_named(to, n) {
            Some(b) => b.kind,
            None => SymbolKind::Unknown,
        },
    }
}

/// Law: hiding read-only symbols drops exactly the lines whose symbol is
/// code or read-only data; every other line of the report without
/// `hide_read_only` stays, unchanged, in the report with it.
pub proof fn lemma_hiding_only_drops_lines(
    hidden: Seq<SymbolDiffView>,
    full: Seq<SymbolDiffView>,
    from: Seq<SymbolView>,
    to: Seq<SymbolView>,
)
    requires
        is_diff_of(hidden, from, to, true),
        is_diff_of(full, from, to, false),
    ensures
        forall|k: int| 0 <= k < hidden.len() ==> full.contains(#[trigger] hidden[k]),
        forall|n: Seq<char>|
            #![trigger has_name(hidden, n)]
            #![trigger has_name(full, n)]
            has_name(hidden, n) <==> has_name(full, n) && !is_hidden(true, line_kind(from, to, n)),
{
    assert forall|n: Seq<char>|
        #![trigger has_name(hidden, n)]
        #![trigger has_name(full, n)]
        has_name(hidden, n) <==> has_name(full, n) && !is_hidden(true, line_kind(from, to, n)) by {
        if has_name(hidden, n) {
            let k = choose|k: int| 0 <= k < hidden.len() && hidden[k].name == n;
            assert(expected_diff(from, to, true, hidden[k].name) == Some(hidden[k]));
            assert(expected_diff(from, to, false, n) is Some);
        }
        if has_name(full, n) {
            let k = choose|k: int| 0 <= k < full.len() && full[k].name == n;
            assert(expected_diff(from, to, false, full[k].name) == Some(full[k]));
            if !is_hidden(true, line_kind(from, to, n)) {
                assert(expected_diff(from, to, true, n) is Some);
            }
        }
    }
    assert forall|k: int| 0 <= k < hidden.len() implies full.contains(#[trigger] hidden[k]) by {
        let n = hidden[k].name;
        assert(expected_diff(from, to, true, n) == Some(hidden[k]));
        assert(expected_diff(from, to, false, n) == Some(hidden[k]));
        let t = choose|t: int| 0 <= t < full.len() && full[t].name == n;
        assert(expected_diff(from, to, false, full[t].name) == Some(full[t]));
        assert(full[t] == hidden[k]);
    }
}

/// The line seen from the other side: added and removed trade places, and
/// the size difference changes sign.
pub open spec fn reversed_line(d: SymbolDiffView) -> SymbolDiffView {
    SymbolDiffView {
        name: d.name,
        change_type: match d.change_type {
            ChangeType::Added => ChangeType::Removed,
            ChangeType::Removed => ChangeType::Added,
            ChangeType::Changed => ChangeType::Changed,
        },
        size_diff: (-d.size_diff) as i64,
    }
}

/// Law: comparing `to` with `from` gives the report of comparing `from`
/// with `to`, each line reversed (without hiding, and when the differences
/// fit in `i64` both ways).
pub proof fn lemma_diff_reversed(
    forward: Seq<SymbolDiffView>,
    backward: Seq<SymbolDiffView>,
    from: Seq<SymbolView>,
    to: Seq<SymbolView>,
)
    requires
        is_diff_of(forward, from, to, false),
        is_diff_of(backward, to, from, false),
        diff_fits(from, to, false),
        diff_fits(to, from, false),
    ensures
        backward == forward.map_values(|d: SymbolDiffView| reversed_line(d)),
{
    let r = forward.map_values(|d: SymbolDiffView| reversed_line(d));
    assert forall|n: Seq<char>| #[trigger] expected_diff(to, from, false, n) == match expected_diff(
        from,
        to,
        false,
        n,
    ) {
        Some(d) => Some(reversed_line(d)),
        None => None,
    } by {
        assert(match (last_named(from, n), last_named(to, n)) {
            (Some(a), Some(b)) => a.size != b.size ==> i64::MIN <= (b.size as i64) - (a.size as i64)
                <= i64::MAX,
            (Some(a), None) => (a.size as i64) != i64::MIN,
            _ => true,
        });
        assert(match (last_named(to, n), last_named(from, n)) {
            (Some(a), Some(b)) => a.size != b.size ==> i64::MIN <= (b.size as i64) - (a.size as i64)
                <= i64::MAX,
            (Some(a), None) => (a.size as i64) != i64::MIN,
            _ => true,
        });
    }
    assert forall|i: int, j: int| 0 <= i < j < r.len() implies chars_lt(r[i].name, r[j].name) by {
        assert(r[i].name == forward[i].name);
        assert(r[j].name == forward[j].name);
    }
    assert forall|k: int| 0 <= k < r.len() implies expected_diff(to, from, false, #[trigger] r[k].name)
        == Some(r[k]) by {
        assert(r[k] == reversed_line(forward[k]));
        assert(expected_diff(from, to, false, forward[k].name) == Some(forward[k]));
    }
    assert forall|n: Seq<char>| #[trigger] expected_diff(to, from, false, n) is Some implies has_name(
        r,
        n,
    ) by {
        assert(expected_diff(from, to, false, n) is Some);
        let t = choose|t: int| 0 <= t < forward.len() && forward[t].name == n;
        assert(r[t].name == n);
    }
    lemma_diff_unique(r, backward, to, from, false);
}

/// Whether every size in `s` is at most `i64::MAX`.
pub open spec fn sizes_at_most_i64_max(s: Seq<SymbolView>) -> bool {
    forall|i: int| 0 <= i < s.len() ==> (#[trigger] s[i]).size <= i64::MAX
}

/// Whether every size is at most `i64::MAX`; then every difference fits.
pub fn sizes_fit_i64(from_symbols: &Vec<Symbol>, to_symbols: &Vec<Symbol>) -> (b: bool)
    ensures
        b == (sizes_at_most_i64_max(symbols_view(from_symbols@)) && sizes_at_most_i64_max(
            symbols_view(to_symbols@),
        )),
        b ==> forall|h: bool| diff_fits(symbols_view(from_symbols@), symbols_view(to_symbols@), h),
{
    let ghost fv = symbols_view(from_symbols@);
    let ghost tv = symbols_view(to_symbols@);
    assert(fv.len() == from_symbols@.len());
    assert(tv.len() == to_symbols@.len());
    let mut i: usize = 0;
    while i < from_symbols.len()
        invariant
            i <= from_symbols.len(),
            fv == symbols_view(from_symbols@),
            fv.len() == from_symbols@.len(),
            forall|k: int| 0 <= k < i ==> (#[trigger] fv[k]).size <= i64::MAX,
        decreases from_symbols.len() - i,
    {
        assert(fv[i as int] == from_symbols@[i as int]@);
        if from_symbols[i].size as u64 > 0x7fff_ffff_ffff_ffffu64 {
            return false;
        }
        i += 1;
    }
    let mut j: usize = 0;
    while j < to_symbols.len()
        invariant
            j <= to_symbols.len(),
            tv == symbols_view(to_symbols@),
            tv.len() == to_symbols@.len(),
            forall|k: int| 0 <= k < j ==> (#[trigger] tv[k]).size <= i64::MAX,
        decreases to_symbols.len() - j,
    {
        assert(tv[j as int] == to_symbols@[j as int]@);
        if to_symbols[j].size as u64 > 0x7fff_ffff_ffff_ffffu64 {
            return false;
        }
        j += 1;
    }
    assert forall|h: bool| diff_fits(fv, tv, h) by {
        assert forall|n: Seq<char>| #![trigger last_named(fv, n)]
            match (last_named(fv, n), last_named(tv, n)) {
                (Some(a), Some(b)) => !is_hidden(h, a.kind) && a.size != b.size ==> i64::MIN
                    <= (b.size as i64) - (a.size as i64) <= i64::MAX,
                (Some(a), None) => !is_hidden(h, a.kind) ==> (a.size as i64) != i64::MIN,
                _ => true,
            } by {
            lemma_last_index(fv, n);
            lemma_last_index(tv, n);
            if last_index(fv, n) >= 0 {
                let a = fv[last_index(fv, n)];
                assert(a.size <= i64::MAX);
                assert((a.size as i64) == a.size);
            }
            if last_index(tv, n) >= 0 {
                let b = tv[last_index(tv, n)];
                assert(b.size <= i64::MAX);
                assert((b.size as i64) == b.size);
            }
        }
    }
    true
}

/// The size of the symbol named `n`, counting an absent one as 0.
pub open spec fn size_in(s: Seq<SymbolView>, n: Seq<char>) -> int {
    match last_named(s, n) {
        Some(a) => a.size as int,
        None => 0,
    }
}

/// Law: without hiding, and with sizes that fit in `i64`, the report has a
/// line exactly for each name whose size differs between the two files
/// (absent counting as 0, present in at least one), and the line's size
/// difference is the new size minus the old one.
pub proof fn lemma_size_diff_is_new_minus_old(
    d: Seq<SymbolDiffView>,
    from: Seq<SymbolView>,
    to: Seq<SymbolView>,
    n: Seq<char>,
)
    requires
        is_diff_of(d, from, to, false),
        forall|i: int| 0 <= i < from.len() ==> (#[trigger] from[i]).size <= i64::MAX,
        forall|i: int| 0 <= i < to.len() ==> (#[trigger] to[i]).size <= i64::MAX,
    ensures
        has_name(d, n) <==> (last_named(from, n) is Some != last_named(to, n) is Some) || (
        last_named(from, n) is Some && last_named(to, n) is Some && size_in(to, n) != size_in(
            from,
            n,
        )),
        forall|k: int|
            0 <= k < d.len() && d[k].name == n ==> d[k].size_diff == size_in(to, n) - size_in(
                from,
                n,
            ),
{
    lemma_last_index(from, n);
    lemma_last_index(to, n);
    if last_named(from, n) is Some {
        let a = from[last_index(from, n)];
        assert(a.size <= i64::MAX);
        assert((a.size as i64) == a.size);
    }
    if last_named(to, n) is Some {
        let b = to[last_index(to, n)];
        assert(b.size <= i64::MAX);
        assert((b.size as i64) == b.size);
    }
    if has_name(d, n) {
        let k = choose|k: int| 0 <= k < d.len() && d[k].name == n;
        assert(expected_diff(from, to, false, d[k].name) == Some(d[k]));
    }
    if expected_diff(from, to, false, n) is Some {
        assert(has_name(d, n));
    }
    assert forall|k: int| 0 <= k < d.len() && d[k].name == n implies d[k].size_diff == size_in(
        to,
        n,
    ) - size_in(from, n) by {
        assert(expected_diff(from, to, false, d[k].name) == Some(d[k]));
    }
}

/// Whether the differences of the comparison fit in `i64`: exactly the
/// precondition of `run_diff`.
pub fn diff_fits_exactly(
    from_symbols: &Vec<Symbol>,
    to_symbols: &Vec<Symbol>,
    hide_read_only: bool,
) -> (b: bool)
    ensures
        b == diff_fits(symbols_view(from_symbols@), symbols_view(to_symbols@), hide_read_only),
{
    let ghost fv = symbols_view(from_symbols@);
    let ghost tv = symbols_view(to_symbols@);
    assert(fv.len() == from_symbols@.len());
    assert(tv.len() == to_symbols@.len());
    let mut i: usize = 0;
    while i < from_symbols.len()
        invariant
            i <= from_symbols.len(),
            fv == symbols_view(from_symbols@),
            tv == symbols_view(to_symbols@),
            fv.len() == from_symbols@.len(),
            tv.len() == to_symbols@.len(),
            forall|n: Seq<char>|
                #![trigger last_index(fv, n)]
                0 <= last_index(fv, n) < i ==> match (last_named(fv, n), last_named(tv, n)) {
                    (Some(a), Some(b)) => !is_hidden(hide_read_only, a.kind) && a.size != b.size
                        ==> i64::MIN <= (b.size as i64) - (a.size as i64) <= i64::MAX,
                    (Some(a), None) => !is_hidden(hide_read_only, a.kind) ==> (a.size as i64)
                        != i64::MIN,
                    _ => true,
                },
        decreases from_symbols.len() - i,
    {
        let a = &from_symbols[i];
        assert(fv[i as int] == a@);
        proof {
            lemma_last_index(fv, a.name@);
            lemma_last_index(tv, a.name@);
        }
        let is_last = match find_last(from_symbols, &a.name) {
            Some(k) => k == i,
            None => false,
        };
        if is_last && !(hide_read_only && (a.kind == SymbolKind::Code || a.kind
            == SymbolKind::RoData)) {
            assert(last_named(fv, a.name@) == Some(a@));
            match find_last(to_symbols, &a.name) {
                Some(j) => {
                    let b = &to_symbols[j];
                    assert(tv[j as int] == b@);
                    assert(last_named(tv, a.name@) == Some(b@));
                    if a.size != b.size {
                        let d: i128 = (b.size as i64) as i128 - (a.size as i64) as i128;
                        if d < -0x8000_0000_0000_0000i128 || d > 0x7fff_ffff_ffff_ffffi128 {
                            assert(last_named(fv, a.name@) is Some);
                            return false;
                        }
                    }
                },
                None => {
                    assert(last_named(tv, a.name@) is None);
                    if (a.size as i64) == i64::MIN {
                        assert(last_named(fv, a.name@) is Some);
                        return false;
                    }
                },
            }
        }
        assert forall|n: Seq<char>|
            #![trigger last_index(fv, n)]
            0 <= last_index(fv, n) < i + 1 implies match (last_named(fv, n), last_named(tv, n)) {
                (Some(a), Some(b)) => !is_hidden(hide_read_only, a.kind) && a.size != b.size
                    ==> i64::MIN <= (b.size as i64) - (a.size as i64) <= i64::MAX,
                (Some(a), None) => !is_hidden(hide_read_only, a.kind) ==> (a.size as i64)
                    != i64::MIN,
                _ => true,
            } by {
            lemma_last_index(fv, n);
            if last_index(fv, n) == i {
                assert(n == a.name@);
            }
        }
        i += 1;
    }
    assert forall|n: Seq<char>| #![trigger last_named(fv, n)]
        match (last_named(fv, n), last_named(tv, n)) {
            (Some(a), Some(b)) => !is_hidden(hide_read_only, a.kind) && a.size != b.size ==> i64::MIN
                <= (b.size as i64) - (a.size as i64) <= i64::MAX,
            (Some(a), None) => !is_hidden(hide_read_only, a.kind) ==> (a.size as i64) != i64::MIN,
            _ => true,
        } by {
        lemma_last_index(fv, n);
    }
    true
}

/// The test "the line is kept when hiding read-only symbols".
pub open spec fn kept_when_hiding(from: Seq<SymbolView>, to: Seq<SymbolView>) -> spec_fn(
    SymbolDiffView,
) -> bool {
    |d: SymbolDiffView| !is_hidden(true, line_kind(from, to, d.name))
}

proof fn lemma_filter_sorted(s: Seq<SymbolDiffView>, p: spec_fn(SymbolDiffView) -> bool)
    requires
        sorted_by_name(s),
    ensures
        sorted_by_name(s.filter(p)),
    decreases s.len(),
{
    reveal(Seq::filter);
    if s.len() > 0 {
        let d = s.drop_last();
        lemma_filter_sorted(d, p);
        let f = d.filter(p);
        if p(s.last()) {
            let g = f.push(s.last());
            assert forall|i: int, j: int| 0 <= i < j < g.len() implies chars_lt(g[i].name, g[j].name) by {
                if j == g.len() - 1 {
                    assert(f.contains(g[i]));
                    d.lemma_filter_contains_rev(p, g[i]);
                    let t = choose|t: int| 0 <= t < d.len() && d[t] == g[i];
                    assert(s[t] == d[t]);
                } else {
                    assert(g[i] == f[i]);
                    assert(g[j] == f[j]);
                }
            }
        }
    }
}

/// Law: the report with `hide_read_only` is the report without it, with
/// the lines whose symbol is code or read-only data filtered out.
pub proof fn lemma_hiding_is_filter(
    hidden: Seq<SymbolDiffView>,
    full: Seq<SymbolDiffView>,
    from: Seq<SymbolView>,
    to: Seq<SymbolView>,
)
    requires
        is_diff_of(hidden, from, to, true),
        is_diff_of(full, from, to, false),
    ensures
        hidden == full.filter(kept_when_hiding(from, to)),
{
    broadcast use vstd::seq_lib::group_filter_ensures;

    let p = kept_when_hiding(from, to);
    let f = full.filter(p);
    lemma_filter_sorted(full, p);
    assert forall|k: int| 0 <= k < f.len() implies expected_diff(from, to, true, #[trigger] f[k].name)
        == Some(f[k]) by {
        assert(p(f[k]));
        full.lemma_filter_contains_rev(p, f[k]);
        let t = choose|t: int| 0 <= t < full.len() && full[t] == f[k];
        assert(expected_diff(from, to, false, full[t].name) == Some(full[t]));
    }
    assert forall|n: Seq<char>| #[trigger] expected_diff(from, to, true, n) is Some implies has_name(
        f,
        n,
    ) by {
        assert(expected_diff(from, to, false, n) is Some);
        let t = choose|t: int| 0 <= t < full.len() && full[t].name == n;
        assert(expected_diff(from, to, false, full[t].name) == Some(full[t]));
        assert(p(full[t]));
        full.lemma_filter_contains(p, t);
        let k = choose|k: int| 0 <= k < f.len() && f[k] == full[t];
        assert(f[k].name == n);
    }
    lemma_diff_unique(hidden, f, from, to, true);
}

/// A named quantity: a symbol's size, or a line's size difference.
pub type NamedValue = (Seq<char>, int);

/// The value of the last entry named `n`, or 0 when there is none.
pub open spec fn value_of(e: Seq<NamedValue>, n: Seq<char>) -> int
    decreases e.len(),
{
    if e.len() == 0 {
        0
    } else if e.last().0 == n {
        e.last().1
    } else {
        value_of(e.drop_last(), n)
    }
}

pub open spec fn value_fn(e: Seq<NamedValue>) -> spec_fn(Seq<char>) -> int {
    |n: Seq<char>| value_of(e, n)
}

/// The sum of the values.
pub open spec fn total(e: Seq<NamedValue>) -> int
    decreases e.len(),
{
    if e.len() == 0 {
        0
    } else {
        total(e.drop_last()) + e.last().1
    }
}

/// The sum of `f` over the names `ns`.
pub open spec fn sum_over(ns: Seq<Seq<char>>, f: spec_fn(Seq<char>) -> int) -> int
    decreases ns.len(),
{
    if ns.len() == 0 {
        0
    } else {
        sum_over(ns.drop_last(), f) + f(ns.last())
    }
}

pub open spec fn entry_names(e: Seq<NamedValue>) -> Seq<Seq<char>> {
    e.map_values(|x: NamedValue| x.0)
}

pub open spec fn distinct_entry_names(e: Seq<NamedValue>) -> bool {
    forall|i: int, j: int| 0 <= i < j < e.len() ==> e[i].0 != e[j].0
}

/// The sizes of the symbols, by name.
pub open spec fn size_entries(s: Seq<SymbolView>) -> Seq<NamedValue> {
    s.map_values(|x: SymbolView| (x.name, x.size as int))
}

/// The size differences of the lines, by name.
pub open spec fn diff_entries(d: Seq<SymbolDiffView>) -> Seq<NamedValue> {
    d.map_values(|x: SymbolDiffView| (x.name, x.size_diff as int))
}

/// The total size of the symbols.
pub open spec fn total_size(s: Seq<SymbolView>) -> int {
    total(size_entries(s))
}

/// The sum of the size differences of the lines.
pub open spec fn total_size_diff(d: Seq<SymbolDiffView>) -> int {
    total(diff_entries(d))
}

/// No name occurs twice.
pub open spec fn distinct_names(s: Seq<SymbolView>) -> bool {
    forall|i: int, j: int| 0 <= i < j < s.len() ==> s[i].name != s[j].name
}

/// `s` without repeated elements, first occurrences kept.
pub open spec fn dedup(s: Seq<Seq<char>>) -> Seq<Seq<char>>
    decreases s.len(),
{
    if s.len() == 0 {
        s
    } else {
        let r = dedup(s.drop_last());
        if r.contains(s.last()) {
            r
        } else {
            r.push(s.last())
        }
    }
}

proof fn lemma_dedup(s: Seq<Seq<char>>)
    ensures
        dedup(s).no_duplicates(),
        forall|n: Seq<char>| dedup(s).contains(n) <==> s.contains(n),
    decreases s.len(),
{
    if s.len() > 0 {
        let d = s.drop_last();
        lemma_dedup(d);
        let r = dedup(d);
        assert forall|n: Seq<char>| dedup(s).contains(n) <==> s.contains(n) by {
            if s.contains(n) && n != s.last() {
                let k = choose|k: int| 0 <= k < s.len() && s[k] == n;
                assert(d[k] == n);
            }
            if d.contains(n) {
                let k = choose|k: int| 0 <= k < d.len() && d[k] == n;
                assert(s[k] == n);
            }
            if !r.contains(s.last()) && dedup(s).contains(n) && n != s.last() {
                let k = choose|k: int| 0 <= k < dedup(s).len() && dedup(s)[k] == n;
                assert(r[k] == n);
            }
            if !r.contains(s.last()) && r.contains(n) {
                let k = choose|k: int| 0 <= k < r.len() && r[k] == n;
                assert(dedup(s)[k] == n);
            }
            if n == s.last() {
                assert(s[s.len() - 1] == n);
                if !r.contains(s.last()) {
                    assert(dedup(s)[r.len() as int] == n);
                }
            }
        }
        if !r.contains(s.last()) {
            let t = r.push(s.last());
            assert forall|i: int, j: int| 0 <= i < t.len() && 0 <= j < t.len() && i != j implies t[i]
                != t[j] by {
                if i == r.len() {
                    assert(r.contains(t[j]));
                } else if j == r.len() {
                    assert(r.contains(t[i]));
                }
            }
        }
    }
}

proof fn lemma_sum_sub(
    ns: Seq<Seq<char>>,
    f: spec_fn(Seq<char>) -> int,
    f1: spec_fn(Seq<char>) -> int,
    f2: spec_fn(Seq<char>) -> int,
)
    requires
        forall|i: int| 0 <= i < ns.len() ==> f(#[trigger] ns[i]) == f1(ns[i]) - f2(ns[i]),
    ensures
        sum_over(ns, f) == sum_over(ns, f1) - sum_over(ns, f2),
    decreases ns.len(),
{
    if ns.len() > 0 {
        let d = ns.drop_last();
        assert forall|i: int| 0 <= i < d.len() implies f(#[trigger] d[i]) == f1(d[i]) - f2(d[i]) by {
            assert(d[i] == ns[i]);
        }
        lemma_sum_sub(d, f, f1, f2);
        assert(ns.last() == ns[ns.len() - 1]);
    }
}

pub open spec fn indicator(m: Seq<char>, c: int) -> spec_fn(Seq<char>) -> int {
    |n: Seq<char>| if n == m { c } else { 0 }
}

proof fn lemma_sum_indicator(ns: Seq<Seq<char>>, m: Seq<char>, c: int)
    requires
        ns.no_duplicates(),
    ensures
        sum_over(ns, indicator(m, c)) == if ns.contains(m) { c } else { 0 },
    decreases ns.len(),
{
    if ns.len() > 0 {
        let d = ns.drop_last();
        assert(d.no_duplicates()) by {
            assert forall|i: int, j: int| 0 <= i < d.len() && 0 <= j < d.len() && i != j implies d[i]
                != d[j] by {
                assert(d[i] == ns[i] && d[j] == ns[j]);
            }
        }
        lemma_sum_indicator(d, m, c);
        if ns.last() == m {
            if d.contains(m) {
                let k = choose|k: int| 0 <= k < d.len() && d[k] == m;
                assert(ns[k] == ns[ns.len() - 1]);
            }
            assert(ns[ns.len() - 1] == m);
        } else {
            if ns.contains(m) {
                let k = choose|k: int| 0 <= k < ns.len() && ns[k] == m;
                assert(k != ns.len() - 1);
                assert(d[k] == m);
            }
            if d.contains(m) {
                let k = choose|k: int| 0 <= k < d.len() && d[k] == m;
                assert(ns[k] == m);
            }
        }
    }
}

proof fn lemma_value_of_absent(e: Seq<NamedValue>, n: Seq<char>)
    requires
        forall|i: int| 0 <= i < e.len() ==> (#[trigger] e[i]).0 != n,
    ensures
        value_of(e, n) == 0,
    decreases e.len(),
{
    if e.len() > 0 {
        let d = e.drop_last();
        assert(e[e.len() - 1] == e.last());
        assert forall|i: int| 0 <= i < d.len() implies (#[trigger] d[i]).0 != n by {
            assert(d[i] == e[i]);
        }
        lemma_value_of_absent(d, n);
    }
}

proof fn lemma_value_of_at(e: Seq<NamedValue>, k: int)
    requires
        0 <= k < e.len(),
        distinct_entry_names(e),
    ensures
        value_of(e, e[k].0) == e[k].1,
    decreases e.len(),
{
    let d = e.drop_last();
    if k < e.len() - 1 {
        assert(e.last() == e[e.len() - 1]);
        assert(d[k] == e[k]);
        lemma_value_of_at(d, k);
    }
}

/// Summing the values by name over a list of distinct names that covers
/// every entry gives the total.
proof fn lemma_sum_by_name(e: Seq<NamedValue>, ns: Seq<Seq<char>>)
    requires
        distinct_entry_names(e),
        ns.no_duplicates(),
        forall|i: int| 0 <= i < e.len() ==> ns.contains(#[trigger] e[i].0),
    ensures
        sum_over(ns, value_fn(e)) == total(e),
    decreases e.len(),
{
    if e.len() == 0 {
        lemma_sum_sub(ns, value_fn(e), indicator(Seq::<char>::empty(), 0), indicator(
            Seq::<char>::empty(),
            0,
        ));
        lemma_sum_indicator(ns, Seq::<char>::empty(), 0);
    } else {
        let d = e.drop_last();
        let x = e.last();
        assert(x == e[e.len() - 1]);
        assert forall|i: int, j: int| 0 <= i < j < d.len() implies d[i].0 != d[j].0 by {
            assert(d[i] == e[i] && d[j] == e[j]);
        }
        assert forall|i: int| 0 <= i < d.len() implies ns.contains(#[trigger] d[i].0) by {
            assert(d[i] == e[i]);
        }
        lemma_sum_by_name(d, ns);
        assert forall|i: int| 0 <= i < d.len() implies (#[trigger] d[i]).0 != x.0 by {
            assert(d[i] == e[i]);
        }
        lemma_value_of_absent(d, x.0);
        assert forall|i: int| 0 <= i < ns.len() implies (value_fn(d))(#[trigger] ns[i]) == (value_fn(
            e,
        ))(ns[i]) - (indicator(x.0, x.1))(ns[i]) by {}
        lemma_sum_sub(ns, value_fn(d), value_fn(e), indicator(x.0, x.1));
        lemma_sum_indicator(ns, x.0, x.1);
    }
}

proof fn lemma_size_entries_value(s: Seq<SymbolView>, n: Seq<char>)
    ensures
        value_of(size_entries(s), n) == size_in(s, n),
    decreases s.len(),
{
    if s.len() > 0 {
        let d = s.drop_last();
        lemma_size_entries_value(d, n);
        lemma_last_index(d, n);
        assert(size_entries(s).drop_last() =~= size_entries(d));
        assert(size_entries(s).last() == (s.last().name, s.last().size as int));
        if s.last().name != n && last_index(d, n) >= 0 {
            assert(s[last_index(d, n)] == d[last_index(d, n)]);
        }
    }
}

/// Law: with names distinct within each file, sizes up to `i64::MAX` and
/// nothing hidden, the size differences of the report add up to the new
/// total size minus the old one.
pub proof fn lemma_total_size_diff(d: Seq<SymbolDiffView>, from: Seq<SymbolView>, to: Seq<SymbolView>)
    requires
        is_diff_of(d, from, to, false),
        distinct_names(from),
        distinct_names(to),
        forall|i: int| 0 <= i < from.len() ==> (#[trigger] from[i]).size <= i64::MAX,
        forall|i: int| 0 <= i < to.len() ==> (#[trigger] to[i]).size <= i64::MAX,
    ensures
        total_size_diff(d) == total_size(to) - total_size(from),
{
    let fe = size_entries(from);
    let te = size_entries(to);
    let de = diff_entries(d);
    let ns = dedup(entry_names(fe) + entry_names(te));
    lemma_dedup(entry_names(fe) + entry_names(te));
    let all = entry_names(fe) + entry_names(te);
    // every name of the three lists is in ns
    assert(entry_names(fe).len() == fe.len());
    assert forall|i: int| 0 <= i < fe.len() implies ns.contains(#[trigger] fe[i].0) by {
        assert(entry_names(fe)[i] == fe[i].0);
        assert(all[i] == fe[i].0);
        assert(all.contains(fe[i].0));
    }
    assert forall|i: int| 0 <= i < te.len() implies ns.contains(#[trigger] te[i].0) by {
        assert(entry_names(te)[i] == te[i].0);
        assert(all[fe.len() + i] == te[i].0);
        assert(all.contains(te[i].0));
    }
    assert forall|i: int| 0 <= i < de.len() implies ns.contains(#[trigger] de[i].0) by {
        let n = d[i].name;
        assert(de[i].0 == n);
        assert(expected_diff(from, to, false, d[i].name) == Some(d[i]));
        lemma_last_index(from, n);
        lemma_last_index(to, n);
        if last_index(from, n) >= 0 {
            let k = last_index(from, n);
            assert(fe[k].0 == n);
            assert(entry_names(fe)[k] == n);
            assert(all[k] == n);
            assert(all.contains(n));
        } else {
            let k = last_index(to, n);
            assert(te[k].0 == n);
            assert(entry_names(te)[k] == n);
            assert(all[fe.len() + k] == n);
            assert(all.contains(n));
        }
    }
    // the entry lists have distinct names
    assert forall|i: int, j: int| 0 <= i < j < fe.len() implies fe[i].0 != fe[j].0 by {
        assert(fe[i].0 == from[i].name && fe[j].0 == from[j].name);
    }
    assert forall|i: int, j: int| 0 <= i < j < te.len() implies te[i].0 != te[j].0 by {
        assert(te[i].0 == to[i].name && te[j].0 == to[j].name);
    }
    assert forall|i: int, j: int| 0 <= i < j < de.len() implies de[i].0 != de[j].0 by {
        lemma_chars_lt_irreflexive(d[i].name);
    }
    lemma_sum_by_name(fe, ns);
    lemma_sum_by_name(te, ns);
    lemma_sum_by_name(de, ns);
    // name by name, a line's difference is the new size minus the old one
    assert forall|i: int| 0 <= i < ns.len() implies (value_fn(de))(#[trigger] ns[i]) == (value_fn(
        te,
    ))(ns[i]) - (value_fn(fe))(ns[i]) by {
        let n = ns[i];
        lemma_size_entries_value(from, n);
        lemma_size_entries_value(to, n);
        lemma_size_diff_is_new_minus_old(d, from, to, n);
        if has_name(d, n) {
            let k = choose|k: int| 0 <= k < d.len() && d[k].name == n;
            assert(de[k].0 == n);
            lemma_value_of_at(de, k);
        } else {
            assert forall|t: int| 0 <= t < de.len() implies (#[trigger] de[t]).0 != n by {
                assert(de[t].0 == d[t].name);
            }
            lemma_value_of_absent(de, n);
        }
    }
    lemma_sum_sub(ns, value_fn(de), value_fn(te), value_fn(fe));
}

} // verus!
