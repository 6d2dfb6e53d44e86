use vstd::prelude::*;
use crate::errors::DepFindError;
use crate::libinfo::LibInfo;
use crate::libname::is_lib_name;
use crate::libname::is_static_lib;
use crate::symbols::clone_bytes;
use crate::table::AllSymbols;
use crate::table::generate_lookup_tables;
use crate::table::has_conflict;
use crate::table::input_defines;
use crate::table::input_view;
use crate::table::lib_defines;
use crate::table::input_requires;
use crate::table::lookup_is_last_definer_in;
use crate::table::table_defines;
use crate::table::undefined_pairs;
use crate::symbols::UnDefinedSymbol;

verus! {

/// The catalog of one resolution run: the discovered libraries, unique by
/// name, together with their merged symbol information.
pub struct AllLibs {
    pub libs: Vec<LibInfo>,
    pub all_symbols: AllSymbols,
}

impl AllLibs {
    /// Library names are unique, and the symbol table is well formed.
    pub open spec fn wf(self) -> bool {
        &&& self.all_symbols.wf()
        &&& self.libs@.map_values(|l: LibInfo| l.name@).no_duplicates()
    }
}

/// Whether the selection already holds a library of the given name.
pub open spec fn sel_has_name(sel: Seq<(LibInfo, Seq<u8>)>, n: Seq<char>) -> bool {
    exists|t: int| 0 <= t < sel.len() && (#[trigger] sel[t]).0.name@ == n
}

/// The candidates kept out of the first `k`: those whose file name follows
/// the `lib<name>.a` convention, with later candidates of an already-seen
/// name dropped (the first discovery wins).
pub open spec fn selected_up_to(cands: Seq<(String, String, Vec<u8>)>, k: int) -> Seq<
    (LibInfo, Seq<u8>),
>
    decreases k,
{
    if k <= 0 {
        Seq::empty()
    } else {
        let prev = selected_up_to(cands, k - 1);
        let c = cands[k - 1];
        if is_lib_name(c.0@) && !sel_has_name(prev, c.0@) {
            prev.push((LibInfo { name: c.0, dir: c.1 }, c.2@))
        } else {
            prev
        }
    }
}

pub open spec fn selected(cands: Seq<(String, String, Vec<u8>)>) -> Seq<(LibInfo, Seq<u8>)> {
    selected_up_to(cands, cands.len() as int)
}

/// The names of the kept candidates are unique.
proof fn lemma_selected_unique(cands: Seq<(String, String, Vec<u8>)>, k: int)
    ensures
        selected_up_to(cands, k).map_values(
            |p: (LibInfo, Seq<u8>)| p.0.name@,
        ).no_duplicates(),
    decreases k,
{
    if k > 0 {
        lemma_selected_unique(cands, k - 1);
        let prev = selected_up_to(cands, k - 1);
        let cur = selected_up_to(cands, k);
        let c = cands[k - 1];
        if is_lib_name(c.0@) && !sel_has_name(prev, c.0@) {
            let names = cur.map_values(|p: (LibInfo, Seq<u8>)| p.0.name@);
            let pnames = prev.map_values(|p: (LibInfo, Seq<u8>)| p.0.name@);
            assert forall|a: int, b: int|
                0 <= a < names.len() && 0 <= b < names.len() && a != b implies names[a]
                != names[b] by {
                if a < pnames.len() && b < pnames.len() {
                    assert(names[a] == pnames[a]);
                    assert(names[b] == pnames[b]);
                } else if a < pnames.len() {
                    if names[a] == names[b] {
                        assert(prev[a].0.name@ == c.0@);
                        assert(sel_has_name(prev, c.0@));
                    }
                } else if b < pnames.len() {
                    if names[a] == names[b] {
                        assert(prev[b].0.name@ == c.0@);
                        assert(sel_has_name(prev, c.0@));
                    }
                }
            }
        }
    }
}

/// Reports whether the selection already holds the given name.
fn sel_contains_name(sel: &Vec<(LibInfo, Vec<u8>)>, name: &String) -> (r: bool)
    ensures
        r == sel_has_name(input_view(sel@), name@),
{
    let mut t: usize = 0;
    while t < sel.len()
        invariant
            t <= sel@.len(),
            forall|q: int| 0 <= q < t ==> (#[trigger] sel@[q]).0.name@ != name@,
        decreases sel@.len() - t,
    {
        if sel[t].0.name.eq(name) {
            assert(input_view(sel@)[t as int].0.name@ == name@);
            return true;
        }
        t = t + 1;
    }
    assert forall|q: int|
        0 <= q < input_view(sel@).len() implies (#[trigger] input_view(sel@)[q]).0.name@
        != name@ by {
        assert(input_view(sel@)[q].0 == sel@[q].0);
    }
    false
}

/// Assembles the catalog from discovered candidate files, each given as
/// (file name, containing directory, archive bytes). Candidates whose name
/// does not follow the `lib<name>.a` convention are silently excluded, a
/// later candidate with an already-seen name is silently dropped (first
/// discovery wins), and the kept libraries' symbol tables are merged. The
/// run fails exactly when the kept libraries hold a needed duplicate
/// definition.
pub fn catalog_libs(candidates: Vec<(String, String, Vec<u8>)>) -> (r: Result<
    AllLibs,
    DepFindError,
>)
    ensures
        r is Ok <==> !has_conflict(selected(candidates@)),
        match r {
            Ok(al) => {
                &&& al.wf()
                &&& al.libs@ == selected(candidates@).map_values(|p: (LibInfo, Seq<u8>)| p.0)
                &&& al.all_symbols.undefined@.map_values(
                    |p: (UnDefinedSymbol, LibInfo)| (p.0@, p.1),
                ) == undefined_pairs(selected(candidates@))
                &&& forall|s: Seq<u8>|
                    #![trigger table_defines(al.all_symbols.defined@, s)]
                    (table_defines(al.all_symbols.defined@, s) <==> input_defines(
                        selected(candidates@),
                        s,
                    ))
                &&& forall|s: Seq<u8>| #[trigger] lookup_is_last_definer_in(
                    al.all_symbols.defined@,
                    selected(candidates@),
                    selected(candidates@).len() as int,
                    s,
                )
            },
            Err(e) => {
                &&& e matches DepFindError::MultipleDefines { dependency_a, dependency_b, symbol }
                    && input_requires(selected(candidates@), symbol@) && (exists|k1: int, k2: int|
                    0 <= k1 < k2 < selected(candidates@).len() && lib_defines(
                        selected(candidates@),
                        k1,
                        symbol@,
                    ) && lib_defines(selected(candidates@), k2, symbol@) && dependency_a@
                        == selected(candidates@)[k1].0.name@ && dependency_b@ == selected(
                        candidates@,
                    )[k2].0.name@)
            },
        },
{
    let mut sel: Vec<(LibInfo, Vec<u8>)> = Vec::new();
    let mut k: usize = 0;
    while k < candidates.len()
        invariant
            k <= candidates@.len(),
            input_view(sel@) == selected_up_to(candidates@, k as int),
        decreases candidates@.len() - k,
    {
        let ghost prev = selected_up_to(candidates@, k as int);
        if is_static_lib(candidates[k].0.as_str()) {
            if !sel_contains_name(&sel, &candidates[k].0) {
                let name = candidates[k].0.clone();
                let dir = candidates[k].1.clone();
                let bytes = clone_bytes(&candidates[k].2);
                let ghost sel0 = sel@;
                sel.push((LibInfo::new(name, dir), bytes));
                proof {
                    let c = candidates@[k as int];
                    assert(sel@[sel@.len() - 1].0 == (LibInfo { name: c.0, dir: c.1 }));
                    assert(sel@[sel@.len() - 1].1@ == c.2@);
                    assert(input_view(sel@) =~= prev.push(
                        (LibInfo { name: c.0, dir: c.1 }, c.2@),
                    ));
                }
            }
        }
        proof {
            assert(input_view(sel@) == selected_up_to(candidates@, k as int + 1));
        }
        k = k + 1;
    }
    let mut libs: Vec<LibInfo> = Vec::new();
    let mut t: usize = 0;
    while t < sel.len()
        invariant
            t <= sel@.len(),
            input_view(sel@) == selected(candidates@),
            libs@.len() == t,
            forall|q: int| 0 <= q < t ==> #[trigger] libs@[q] == sel@[q].0,
        decreases sel@.len() - t,
    {
        libs.push(sel[t].0.clone());
        t = t + 1;
    }
    proof {
        assert(libs@ =~= selected(candidates@).map_values(|p: (LibInfo, Seq<u8>)| p.0)) by {
            assert forall|q: int| 0 <= q < libs@.len() implies #[trigger] libs@[q] == selected(
                candidates@,
            )[q].0 by {
                assert(input_view(sel@)[q].0 == sel@[q].0);
            }
        }
        lemma_selected_unique(candidates@, candidates@.len() as int);
        assert(libs@.map_values(|l: LibInfo| l.name@) =~= selected(candidates@).map_values(
            |p: (LibInfo, Seq<u8>)| p.0.name@,
        ));
    }
    match generate_lookup_tables(sel) {
        Ok(all_symbols) => Ok(AllLibs { libs, all_symbols }),
        Err(e) => Err(e),
    }
}

} // verus!
