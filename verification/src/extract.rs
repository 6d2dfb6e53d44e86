use vstd::prelude::*;
use object::Object;
use object::ObjectSymbol;
use crate::arguard::ar_walk_safe;
use crate::arguard::archive_walk_safe;
use crate::symbols::DefinedSymbol;
use crate::symbols::UnDefinedSymbol;
use crate::symbols::bytes_eq;

verus! {

/// The data of the member files of the archive whose bytes are `data`, in
/// archive order, as the archive format determines them.
pub uninterp spec fn ar_members(data: Seq<u8>) -> Seq<Seq<u8>>;

/// The symbol table of the relocatable object whose bytes are `data`:
/// `None` when the bytes do not parse as an object, otherwise one entry
/// `(name, is a definition, is undefined)` per symbol whose name is
/// readable, in symbol-table order.
pub uninterp spec fn object_symbol_table(data: Seq<u8>) -> Option<Seq<(Seq<u8>, bool, bool)>>;

/// Relies on `ar::Archive`: iterating `next_entry` over the archive bytes
/// yields the member files in order, skipping the archive's own name-table
/// and symbol-table pseudo-members, and stops at the first malformed entry;
/// members that fail to read are skipped. The outcome is a function of the
/// bytes alone, which `ar_members` names. The reader is not total: on
/// crafted bytes its header parsing can index or allocate out of bounds,
/// so the call is only made on bytes the verified walk has admitted.
#[verifier::external_body]
fn archive_member_data(data: &Vec<u8>) -> (r: Vec<Vec<u8>>)
    requires
        ar_walk_safe(data@),
    ensures
        r.deep_view() == ar_members(data@),
{
    let mut archive = ar::Archive::new(data.as_slice());
    let mut members: Vec<Vec<u8>> = Vec::new();
    while let Some(entry) = archive.next_entry() {
        if let Ok(mut e) = entry {
            let mut buf: Vec<u8> = Vec::new();
            if std::io::Read::read_to_end(&mut e, &mut buf).is_ok() {
                members.push(buf);
            }
        }
    }
    members
}

/// Relies on `object::File::parse` and the `ObjectSymbol` accessors
/// `name_bytes`, `is_definition` and `is_undefined`: a parseable object
/// yields its symbols in order, each converted to plain values; symbols
/// whose name cannot be read are dropped. The outcome is a function of the
/// bytes alone, which `object_symbol_table` names.
#[verifier::external_body]
fn parse_object_symbols(data: &Vec<u8>) -> (r: Option<Vec<(Vec<u8>, bool, bool)>>)
    ensures
        r.deep_view() == object_symbol_table(data@),
{
    let file = match object::File::parse(data.as_slice()) {
        Ok(f) => f,
        Err(_) => return None,
    };
    let mut out: Vec<(Vec<u8>, bool, bool)> = Vec::new();
    for sym in file.symbols() {
        if let Ok(name) = sym.name_bytes() {
            out.push((name.to_vec(), sym.is_definition(), sym.is_undefined()));
        }
    }
    Some(out)
}

/// The names of the first `j` symbol-table entries flagged as definitions.
pub open spec fn table_defined_up_to(tab: Seq<(Seq<u8>, bool, bool)>, j: int) -> Seq<Seq<u8>>
    decreases j,
{
    if j <= 0 {
        Seq::empty()
    } else if tab[j - 1].1 {
        table_defined_up_to(tab, j - 1).push(tab[j - 1].0)
    } else {
        table_defined_up_to(tab, j - 1)
    }
}

/// The names of the first `j` symbol-table entries flagged as undefined.
pub open spec fn table_undefined_up_to(tab: Seq<(Seq<u8>, bool, bool)>, j: int) -> Seq<Seq<u8>>
    decreases j,
{
    if j <= 0 {
        Seq::empty()
    } else if tab[j - 1].2 {
        table_undefined_up_to(tab, j - 1).push(tab[j - 1].0)
    } else {
        table_undefined_up_to(tab, j - 1)
    }
}

/// The defined-symbol names one object member contributes: none when the
/// member is not a parseable object.
pub open spec fn member_defined(m: Seq<u8>) -> Seq<Seq<u8>> {
    match object_symbol_table(m) {
        Some(tab) => table_defined_up_to(tab, tab.len() as int),
        None => Seq::empty(),
    }
}

/// The undefined-symbol names one object member contributes.
pub open spec fn member_undefined(m: Seq<u8>) -> Seq<Seq<u8>> {
    match object_symbol_table(m) {
        Some(tab) => table_undefined_up_to(tab, tab.len() as int),
        None => Seq::empty(),
    }
}

/// The defined-symbol names of the first `i` members, concatenated.
pub open spec fn members_defined_up_to(ms: Seq<Seq<u8>>, i: int) -> Seq<Seq<u8>>
    decreases i,
{
    if i <= 0 {
        Seq::empty()
    } else {
        members_defined_up_to(ms, i - 1) + member_defined(ms[i - 1])
    }
}

/// The undefined-symbol names of the first `i` members, concatenated.
pub open spec fn members_undefined_up_to(ms: Seq<Seq<u8>>, i: int) -> Seq<Seq<u8>>
    decreases i,
{
    if i <= 0 {
        Seq::empty()
    } else {
        members_undefined_up_to(ms, i - 1) + member_undefined(ms[i - 1])
    }
}

/// Every defined-symbol name in the archive, member by member, in order,
/// duplicates included. Bytes the archive reader cannot safely iterate
/// contribute nothing, as any malformed file does.
pub open spec fn archive_defined(data: Seq<u8>) -> Seq<Seq<u8>> {
    if ar_walk_safe(data) {
        members_defined_up_to(ar_members(data), ar_members(data).len() as int)
    } else {
        Seq::empty()
    }
}

/// Every undefined-symbol name in the archive, member by member, in order,
/// duplicates included.
pub open spec fn archive_undefined(data: Seq<u8>) -> Seq<Seq<u8>> {
    if ar_walk_safe(data) {
        members_undefined_up_to(ar_members(data), ar_members(data).len() as int)
    } else {
        Seq::empty()
    }
}

/// `s` with every repeated name dropped, keeping first occurrences in order.
pub open spec fn dedup_first(s: Seq<Seq<u8>>) -> Seq<Seq<u8>>
    decreases s.len(),
{
    if s.len() == 0 {
        Seq::empty()
    } else {
        let rest = dedup_first(s.drop_last());
        if rest.contains(s.last()) {
            rest
        } else {
            rest.push(s.last())
        }
    }
}

/// Deduplication keeps exactly the names that occur.
pub proof fn lemma_dedup_first_contains(s: Seq<Seq<u8>>, x: Seq<u8>)
    ensures
        dedup_first(s).contains(x) <==> s.contains(x),
    decreases s.len(),
{
    if s.len() > 0 {
        lemma_dedup_first_contains(s.drop_last(), x);
        let rest = dedup_first(s.drop_last());
        if s.contains(x) {
            let idx = choose|idx: int| 0 <= idx < s.len() && s[idx] == x;
            if idx < s.len() - 1 {
                assert(s.drop_last()[idx] == x);
                assert(s.drop_last().contains(x));
                if !rest.contains(s.last()) {
                    assert(rest.contains(x));
                    let r = choose|r: int| 0 <= r < rest.len() && rest[r] == x;
                    assert(rest.push(s.last())[r] == x);
                }
            } else {
                if rest.contains(s.last()) {
                } else {
                    let d = rest.push(s.last());
                    assert(d[d.len() - 1] == x);
                }
            }
        }
        if dedup_first(s).contains(x) {
            if rest.contains(s.last()) {
                assert(s.drop_last().contains(x));
                let idx = choose|idx: int| 0 <= idx < s.drop_last().len() && s.drop_last()[idx] == x;
                assert(s[idx] == x);
            } else {
                let d = rest.push(s.last());
                let r = choose|r: int| 0 <= r < d.len() && d[r] == x;
                if r < rest.len() {
                    assert(rest.contains(x));
                    let idx = choose|idx: int|
                        0 <= idx < s.drop_last().len() && s.drop_last()[idx] == x;
                    assert(s[idx] == x);
                } else {
                    assert(s[s.len() - 1] == x);
                }
            }
        }
    }
}

/// The deduplicated list has no repeated names.
pub proof fn lemma_dedup_first_no_duplicates(s: Seq<Seq<u8>>)
    ensures
        dedup_first(s).no_duplicates(),
    decreases s.len(),
{
    if s.len() > 0 {
        lemma_dedup_first_no_duplicates(s.drop_last());
        let rest = dedup_first(s.drop_last());
        if !rest.contains(s.last()) {
            let d = rest.push(s.last());
            assert forall|a: int, b: int|
                0 <= a < d.len() && 0 <= b < d.len() && a != b implies d[a] != d[b] by {
                if a < rest.len() && b < rest.len() {
                } else if a < rest.len() {
                    if d[a] == d[b] {
                        assert(rest.contains(s.last()));
                    }
                } else {
                    if d[a] == d[b] {
                        assert(rest.contains(s.last()));
                    }
                }
            }
        }
    }
}

/// Reports whether `syms` already holds a symbol with the given bytes.
fn contains_defined(syms: &Vec<DefinedSymbol>, b: &Vec<u8>) -> (r: bool)
    ensures
        r == syms.deep_view().contains(b@),
{
    let mut i: usize = 0;
    while i < syms.len()
        invariant
            i <= syms@.len(),
            forall|t: int| 0 <= t < i ==> syms.deep_view()[t] != b@,
        decreases syms@.len() - i,
    {
        assert(syms.deep_view()[i as int] == syms@[i as int]@);
        if bytes_eq(&syms[i].symbol, b) {
            return true;
        }
        i = i + 1;
    }
    assert forall|t: int| 0 <= t < syms.deep_view().len() implies syms.deep_view()[t] != b@ by {
    }
    false
}

/// Parses one static archive and collects, over all member objects, the
/// set of symbols they define (first occurrences kept, duplicates within
/// the archive collapsed) and the list of symbols they leave undefined
/// (duplicates preserved). Members that are not parseable objects
/// contribute nothing; an empty or malformed archive yields empty results.
pub fn get_symbols(data: &Vec<u8>) -> (r: (Vec<DefinedSymbol>, Vec<UnDefinedSymbol>))
    ensures
        r.0.deep_view() == dedup_first(archive_defined(data@)),
        r.1.deep_view() == archive_undefined(data@),
{
    if !archive_walk_safe(data) {
        let defined: Vec<DefinedSymbol> = Vec::new();
        let undefined: Vec<UnDefinedSymbol> = Vec::new();
        proof {
            assert(archive_defined(data@) =~= Seq::<Seq<u8>>::empty());
            assert(archive_undefined(data@) =~= Seq::<Seq<u8>>::empty());
            assert(dedup_first(archive_defined(data@)) =~= Seq::<Seq<u8>>::empty());
            assert(defined.deep_view() =~= Seq::<Seq<u8>>::empty());
            assert(undefined.deep_view() =~= Seq::<Seq<u8>>::empty());
        }
        return (defined, undefined);
    }
    let members = archive_member_data(data);
    let ghost ms = ar_members(data@);
    let mut defined: Vec<DefinedSymbol> = Vec::new();
    let mut undefined: Vec<UnDefinedSymbol> = Vec::new();
    let mut i: usize = 0;
    while i < members.len()
        invariant
            members.deep_view() == ms,
            i <= members@.len(),
            defined.deep_view() == dedup_first(members_defined_up_to(ms, i as int)),
            undefined.deep_view() == members_undefined_up_to(ms, i as int),
        decreases members@.len() - i,
    {
        let ghost prev_d = members_defined_up_to(ms, i as int);
        let ghost prev_u = members_undefined_up_to(ms, i as int);
        assert(members@[i as int].deep_view() == ms[i as int]);
        assert(members@[i as int]@ =~= ms[i as int]);
        match parse_object_symbols(&members[i]) {
            Some(tab) => {
                let ghost tabv = tab.deep_view();
                assert(object_symbol_table(ms[i as int]) == Some(tabv));
                let mut j: usize = 0;
                while j < tab.len()
                    invariant
                        tab.deep_view() == tabv,
                        j <= tab@.len(),
                        defined.deep_view() == dedup_first(
                            prev_d + table_defined_up_to(tabv, j as int),
                        ),
                        undefined.deep_view() == prev_u + table_undefined_up_to(tabv, j as int),
                    decreases tab@.len() - j,
                {
                    let ghost entry = tabv[j as int];
                    assert(tab@[j as int].deep_view() == entry);
                    assert(entry.0 =~= tab@[j as int].0@);
                    let is_def = tab[j].1;
                    let is_undef = tab[j].2;
                    if is_def {
                        let ghost before = prev_d + table_defined_up_to(tabv, j as int);
                        let ghost after = prev_d + table_defined_up_to(tabv, j as int + 1);
                        assert(after =~= before.push(entry.0));
                        if !contains_defined(&defined, &tab[j].0) {
                            let name = crate::symbols::clone_bytes(&tab[j].0);
                            let ghost old_dv = defined.deep_view();
                            defined.push(DefinedSymbol::new(name));
                            assert(defined.deep_view() =~= old_dv.push(entry.0));
                        } else {
                            assert(dedup_first(before).contains(entry.0));
                        }
                        assert(after.drop_last() =~= before);
                        assert(after.last() == entry.0);
                    } else {
                        assert(table_defined_up_to(tabv, j as int + 1)
                            == table_defined_up_to(tabv, j as int));
                    }
                    if is_undef {
                        let name = crate::symbols::clone_bytes(&tab[j].0);
                        let ghost old_uv = undefined.deep_view();
                        undefined.push(UnDefinedSymbol::new(name));
                        assert(undefined.deep_view() =~= old_uv.push(entry.0));
                        assert(prev_u + table_undefined_up_to(tabv, j as int + 1)
                            =~= (prev_u + table_undefined_up_to(tabv, j as int)).push(entry.0));
                    } else {
                        assert(table_undefined_up_to(tabv, j as int + 1)
                            == table_undefined_up_to(tabv, j as int));
                    }
                    j = j + 1;
                }
                proof {
                    assert(table_defined_up_to(tabv, tabv.len() as int) == member_defined(
                        ms[i as int],
                    ));
                    assert(members_defined_up_to(ms, i as int + 1) == prev_d + member_defined(
                        ms[i as int],
                    ));
                    assert(members_undefined_up_to(ms, i as int + 1) == prev_u + member_undefined(
                        ms[i as int],
                    ));
                }
            },
            None => {
                proof {
                    assert(object_symbol_table(ms[i as int]) is None);
                    assert(member_defined(ms[i as int]) =~= Seq::<Seq<u8>>::empty());
                    assert(member_undefined(ms[i as int]) =~= Seq::<Seq<u8>>::empty());
                    assert(members_defined_up_to(ms, i as int + 1) =~= prev_d);
                    assert(members_undefined_up_to(ms, i as int + 1) =~= prev_u);
                }
            },
        }
        i = i + 1;
    }
    (defined, undefined)
}

} // verus!
