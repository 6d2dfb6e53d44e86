use vstd::prelude::*;
use crate::errors::DepFindError;
use crate::extract::archive_defined;
use crate::extract::archive_undefined;
use crate::extract::dedup_first;
use crate::extract::get_symbols;
use crate::extract::lemma_dedup_first_contains;
use crate::extract::lemma_dedup_first_no_duplicates;
use crate::libinfo::LibInfo;
use crate::symbols::DefinedSymbol;
use crate::symbols::UnDefinedSymbol;
use crate::symbols::bytes_eq;

verus! {

/// The merged symbol information of a library collection: a mapping from
/// every defined symbol to the library that owns it (the defined table's
/// keys are unique), and the list pairing every undefined-symbol occurrence
/// with the library that requires it.
pub struct AllSymbols {
    pub defined: Vec<(DefinedSymbol, LibInfo)>,
    pub undefined: Vec<(UnDefinedSymbol, LibInfo)>,
}

/// The key column of a defined-symbol table.
pub open spec fn table_keys(t: Seq<(DefinedSymbol, LibInfo)>) -> Seq<Seq<u8>> {
    t.map_values(|p: (DefinedSymbol, LibInfo)| p.0@)
}

/// Whether the table holds an entry for symbol `s`.
pub open spec fn table_defines(t: Seq<(DefinedSymbol, LibInfo)>, s: Seq<u8>) -> bool {
    exists|k: int| 0 <= k < t.len() && (#[trigger] t[k]).0@ == s
}

/// The library the table maps symbol `s` to, when it holds one.
pub open spec fn table_lookup(t: Seq<(DefinedSymbol, LibInfo)>, s: Seq<u8>) -> Option<LibInfo> {
    if table_defines(t, s) {
        let k = choose|k: int| 0 <= k < t.len() && (#[trigger] t[k]).0@ == s;
        Some(t[k].1)
    } else {
        None
    }
}

impl AllSymbols {
    /// The defined table maps each symbol to at most one library.
    pub open spec fn wf(self) -> bool {
        table_keys(self.defined@).no_duplicates()
    }
}

/// Library `k` of the input defines symbol `s`.
pub open spec fn lib_defines(inp: Seq<(LibInfo, Seq<u8>)>, k: int, s: Seq<u8>) -> bool {
    archive_defined(inp[k].1).contains(s)
}

/// Library `k` of the input requires symbol `s`.
pub open spec fn lib_requires(inp: Seq<(LibInfo, Seq<u8>)>, k: int, s: Seq<u8>) -> bool {
    archive_undefined(inp[k].1).contains(s)
}

pub open spec fn input_defines(inp: Seq<(LibInfo, Seq<u8>)>, s: Seq<u8>) -> bool {
    exists|k: int| 0 <= k < inp.len() && lib_defines(inp, k, s)
}

pub open spec fn input_requires(inp: Seq<(LibInfo, Seq<u8>)>, s: Seq<u8>) -> bool {
    exists|k: int| 0 <= k < inp.len() && lib_requires(inp, k, s)
}

/// A needed duplicate exists: two distinct libraries define the same
/// symbol, and some library requires that symbol. This is exactly the
/// condition under which table construction fails.
pub open spec fn has_conflict(inp: Seq<(LibInfo, Seq<u8>)>) -> bool {
    exists|k1: int, k2: int, s: Seq<u8>|
        0 <= k1 < k2 < inp.len() && lib_defines(inp, k1, s) && lib_defines(inp, k2, s)
            && input_requires(inp, s)
}

/// A recorded duplicate is witnessed by two distinct defining libraries
/// among the first `bound` input entries.
pub open spec fn dup_entry_sound(
    inp: Seq<(LibInfo, Seq<u8>)>,
    e: (DefinedSymbol, LibInfo, LibInfo),
    bound: int,
) -> bool {
    exists|k1: int, k2: int|
        0 <= k1 < k2 < bound && lib_defines(inp, k1, e.0@) && lib_defines(inp, k2, e.0@) && e.1
            == inp[k1].0 && e.2 == inp[k2].0
}

proof fn lemma_dup_entry_sound_widen(
    inp: Seq<(LibInfo, Seq<u8>)>,
    e: (DefinedSymbol, LibInfo, LibInfo),
    b1: int,
    b2: int,
)
    requires
        dup_entry_sound(inp, e, b1),
        b1 <= b2,
    ensures
        dup_entry_sound(inp, e, b2),
{
    let (k1, k2) = choose|k1: int, k2: int|
        0 <= k1 < k2 < b1 && lib_defines(inp, k1, e.0@) && lib_defines(inp, k2, e.0@) && e.1
            == inp[k1].0 && e.2 == inp[k2].0;
    assert(0 <= k1 < k2 < b2 && lib_defines(inp, k1, e.0@) && lib_defines(inp, k2, e.0@) && e.1
        == inp[k1].0 && e.2 == inp[k2].0);
}

/// When the table holds `s`, its entry is the last library of the first
/// `bound` input entries that defines `s`.
pub open spec fn lookup_is_last_definer_in(
    t: Seq<(DefinedSymbol, LibInfo)>,
    inp: Seq<(LibInfo, Seq<u8>)>,
    bound: int,
    s: Seq<u8>,
) -> bool {
    table_lookup(t, s) matches Some(l) ==> exists|k1: int|
        0 <= k1 < bound && lib_defines(inp, k1, s) && l == inp[k1].0 && (forall|k2: int|
            k1 < k2 < bound ==> !lib_defines(inp, k2, s))
}

/// The undefined pairs contributed by the first `k` input libraries:
/// each undefined-symbol occurrence, with its requesting library, in order.
pub open spec fn undefined_pairs_up_to(inp: Seq<(LibInfo, Seq<u8>)>, k: int) -> Seq<
    (Seq<u8>, LibInfo),
>
    decreases k,
{
    if k <= 0 {
        Seq::empty()
    } else {
        undefined_pairs_up_to(inp, k - 1) + archive_undefined(inp[k - 1].1).map_values(
            |s: Seq<u8>| (s, inp[k - 1].0),
        )
    }
}

pub open spec fn undefined_pairs(inp: Seq<(LibInfo, Seq<u8>)>) -> Seq<(Seq<u8>, LibInfo)> {
    undefined_pairs_up_to(inp, inp.len() as int)
}

/// The ghost form of a library input: each archive's bytes as a sequence.
pub open spec fn input_view(libs: Seq<(LibInfo, Vec<u8>)>) -> Seq<(LibInfo, Seq<u8>)> {
    libs.map_values(|p: (LibInfo, Vec<u8>)| (p.0, p.1@))
}

/// A symbol occurs among the undefined pairs of the first `bound` libraries
/// exactly when one of those libraries requires it.
pub proof fn lemma_undefined_pairs_membership(inp: Seq<(LibInfo, Seq<u8>)>, bound: int, s: Seq<u8>)
    requires
        0 <= bound <= inp.len(),
    ensures
        (exists|j: int|
            0 <= j < undefined_pairs_up_to(inp, bound).len() && (#[trigger] undefined_pairs_up_to(
                inp,
                bound,
            )[j]).0 == s) <==> exists|k: int| 0 <= k < bound && lib_requires(inp, k, s),
    decreases bound,
{
    if bound > 0 {
        lemma_undefined_pairs_membership(inp, bound - 1, s);
        let prev = undefined_pairs_up_to(inp, bound - 1);
        let added = archive_undefined(inp[bound - 1].1).map_values(
            |s2: Seq<u8>| (s2, inp[bound - 1].0),
        );
        let cur = undefined_pairs_up_to(inp, bound);
        assert(cur == prev + added);
        if exists|j: int| 0 <= j < cur.len() && (#[trigger] cur[j]).0 == s {
            let j = choose|j: int| 0 <= j < cur.len() && (#[trigger] cur[j]).0 == s;
            if j < prev.len() {
                assert(prev[j].0 == s);
            } else {
                assert(added[j - prev.len()].0 == s);
                assert(archive_undefined(inp[bound - 1].1)[j - prev.len()] == s);
                assert(lib_requires(inp, bound - 1, s));
            }
        }
        if exists|k: int| 0 <= k < bound && lib_requires(inp, k, s) {
            let k = choose|k: int| 0 <= k < bound && lib_requires(inp, k, s);
            if k < bound - 1 {
                let j = choose|j: int| 0 <= j < prev.len() && (#[trigger] prev[j]).0 == s;
                assert(cur[j].0 == s);
            } else {
                let u = archive_undefined(inp[bound - 1].1);
                let t = choose|t: int| 0 <= t < u.len() && u[t] == s;
                assert(added[t].0 == s);
                assert(cur[prev.len() + t].0 == s);
            }
        }
    }
}

/// Two entries of a unique-key table with the same key are the same entry.
proof fn lemma_table_key_unique(t: Seq<(DefinedSymbol, LibInfo)>, i: int, j: int)
    requires
        table_keys(t).no_duplicates(),
        0 <= i < t.len(),
        0 <= j < t.len(),
        t[i].0@ == t[j].0@,
    ensures
        i == j,
{
    assert(table_keys(t)[i] == t[i].0@);
    assert(table_keys(t)[j] == t[j].0@);
}

/// Looking up the key of entry `i` yields entry `i`.
proof fn lemma_table_lookup_at(t: Seq<(DefinedSymbol, LibInfo)>, i: int)
    requires
        table_keys(t).no_duplicates(),
        0 <= i < t.len(),
    ensures
        table_defines(t, t[i].0@),
        table_lookup(t, t[i].0@) == Some(t[i].1),
{
    assert(table_defines(t, t[i].0@));
    let k = choose|k: int| 0 <= k < t.len() && (#[trigger] t[k]).0@ == t[i].0@;
    lemma_table_key_unique(t, k, i);
}

/// Finds the position of symbol `b` in the defined table, if present.
fn table_find(t: &Vec<(DefinedSymbol, LibInfo)>, b: &Vec<u8>) -> (r: Option<usize>)
    ensures
        match r {
            Some(i) => i < t@.len() && t@[i as int].0@ == b@,
            None => !table_defines(t@, b@),
        },
{
    let mut i: usize = 0;
    while i < t.len()
        invariant
            i <= t@.len(),
            forall|k: int| 0 <= k < i ==> (#[trigger] t@[k]).0@ != b@,
        decreases t@.len() - i,
    {
        if bytes_eq(&t[i].0.symbol, b) {
            return Some(i);
        }
        i = i + 1;
    }
    None
}

/// Looks up the library that defines the given symbol, matching by the
/// symbol's bytes alone, in a table with unique keys.
pub fn get_lib_for_symbol(
    symbol: &UnDefinedSymbol,
    defined_libs: &Vec<(DefinedSymbol, LibInfo)>,
) -> (r: Option<LibInfo>)
    requires
        table_keys(defined_libs@).no_duplicates(),
    ensures
        r == table_lookup(defined_libs@, symbol@),
{
    match table_find(defined_libs, &symbol.symbol) {
        Some(i) => {
            proof {
                lemma_table_lookup_at(defined_libs@, i as int);
            }
            Some(defined_libs[i].1.clone())
        },
        None => None,
    }
}

/// Inserts a symbol into the defined table, replacing and returning any
/// previous entry for the same bytes, as a map insert would.
fn table_insert(t: &mut Vec<(DefinedSymbol, LibInfo)>, sym: DefinedSymbol, lib: LibInfo) -> (prev:
    Option<LibInfo>)
    requires
        table_keys(old(t)@).no_duplicates(),
    ensures
        table_keys(final(t)@).no_duplicates(),
        prev == table_lookup(old(t)@, sym@),
        table_lookup(final(t)@, sym@) == Some(lib),
        forall|s: Seq<u8>| s != sym@ ==> table_lookup(final(t)@, s) == table_lookup(old(t)@, s),
        forall|s: Seq<u8>|
            table_defines(final(t)@, s) <==> table_defines(old(t)@, s) || s == sym@,
{
    let ghost t0 = t@;
    match table_find(t, &sym.symbol) {
        Some(i) => {
            proof {
                lemma_table_lookup_at(t0, i as int);
            }
            let prev = t[i].1.clone();
            let ghost symv = sym@;
            t[i] = (sym, lib);
            proof {
                assert(t@ == t0.update(i as int, (sym, lib)));
                assert(table_keys(t@) =~= table_keys(t0));
                lemma_table_lookup_at(t@, i as int);
                assert(t@[i as int].0@ == symv);
                assert forall|s: Seq<u8>| s != symv implies table_lookup(t@, s) == table_lookup(
                    t0,
                    s,
                ) by {
                    assert(table_defines(t@, s) <==> table_defines(t0, s)) by {
                        if table_defines(t@, s) {
                            let k = choose|k: int| 0 <= k < t@.len() && (#[trigger] t@[k]).0@ == s;
                            assert(k != i);
                            assert(t0[k].0@ == s);
                        }
                        if table_defines(t0, s) {
                            let k = choose|k: int| 0 <= k < t0.len() && (#[trigger] t0[k]).0@ == s;
                            assert(k != i);
                            assert(t@[k].0@ == s);
                        }
                    }
                    if table_defines(t@, s) {
                        let k1 = choose|k: int| 0 <= k < t@.len() && (#[trigger] t@[k]).0@ == s;
                        let k2 = choose|k: int| 0 <= k < t0.len() && (#[trigger] t0[k]).0@ == s;
                        assert(k1 != i);
                        assert(t0[k1].0@ == s);
                        lemma_table_key_unique(t0, k1, k2);
                    }
                }
                assert forall|s: Seq<u8>|
                    table_defines(t@, s) <==> table_defines(t0, s) || s == symv by {
                    if table_defines(t@, s) && s != symv {
                        let k = choose|k: int| 0 <= k < t@.len() && (#[trigger] t@[k]).0@ == s;
                        assert(k != i);
                        assert(t0[k].0@ == s);
                    }
                    if table_defines(t0, s) && s != symv {
                        let k = choose|k: int| 0 <= k < t0.len() && (#[trigger] t0[k]).0@ == s;
                        assert(k != i);
                        assert(t@[k].0@ == s);
                    }
                }
            }
            Some(prev)
        },
        None => {
            let ghost symv = sym@;
            t.push((sym, lib));
            proof {
                assert(t@ == t0.push((sym, lib)));
                let n = t0.len() as int;
                assert(table_keys(t@) =~= table_keys(t0).push(symv));
                assert(!table_keys(t0).contains(symv)) by {
                    if table_keys(t0).contains(symv) {
                        let k = choose|k: int|
                            0 <= k < table_keys(t0).len() && table_keys(t0)[k] == symv;
                        assert(t0[k].0@ == symv);
                        assert(table_defines(t0, symv));
                    }
                }
                assert(table_keys(t@).no_duplicates()) by {
                    let keys = table_keys(t0).push(symv);
                    assert forall|a: int, b: int|
                        0 <= a < keys.len() && 0 <= b < keys.len() && a != b implies keys[a]
                        != keys[b] by {
                        if a < table_keys(t0).len() && b < table_keys(t0).len() {
                        } else if a < table_keys(t0).len() {
                            if keys[a] == keys[b] {
                                assert(table_keys(t0).contains(symv));
                            }
                        } else if b < table_keys(t0).len() {
                            if keys[a] == keys[b] {
                                assert(table_keys(t0).contains(symv));
                            }
                        }
                    }
                }
                lemma_table_lookup_at(t@, n);
                assert forall|s: Seq<u8>| s != symv implies table_lookup(t@, s) == table_lookup(
                    t0,
                    s,
                ) by {
                    assert(table_defines(t@, s) <==> table_defines(t0, s)) by {
                        if table_defines(t@, s) {
                            let k = choose|k: int| 0 <= k < t@.len() && (#[trigger] t@[k]).0@ == s;
                            assert(k != n);
                            assert(t0[k].0@ == s);
                        }
                        if table_defines(t0, s) {
                            let k = choose|k: int| 0 <= k < t0.len() && (#[trigger] t0[k]).0@ == s;
                            assert(t@[k].0@ == s);
                        }
                    }
                    if table_defines(t@, s) {
                        let k1 = choose|k: int| 0 <= k < t@.len() && (#[trigger] t@[k]).0@ == s;
                        let k2 = choose|k: int| 0 <= k < t0.len() && (#[trigger] t0[k]).0@ == s;
                        assert(k1 != n);
                        assert(t0[k1].0@ == s);
                        lemma_table_key_unique(t0, k1, k2);
                    }
                }
                assert forall|s: Seq<u8>|
                    table_defines(t@, s) <==> table_defines(t0, s) || s == symv by {
                    if table_defines(t@, s) && s != symv {
                        let k = choose|k: int| 0 <= k < t@.len() && (#[trigger] t@[k]).0@ == s;
                        assert(k != n);
                        assert(t0[k].0@ == s);
                    }
                    if table_defines(t0, s) {
                        let k = choose|k: int| 0 <= k < t0.len() && (#[trigger] t0[k]).0@ == s;
                        assert(t@[k].0@ == s);
                    }
                }
            }
            None
        },
    }
}

/// Builds the symbol resolution table over a collection of libraries, each
/// given with the raw bytes of its archive file. On success the defined
/// table maps every symbol that any library defines to the last library in
/// input order that defines it, and the undefined list pairs every
/// undefined-symbol occurrence with its requesting library, in order. The
/// build fails, with `MultipleDefines` naming two of the definers and the
/// symbol, exactly when some symbol is defined by two distinct libraries
/// and required somewhere; a duplicate that nothing requires is tolerated.
pub fn generate_lookup_tables(libs: Vec<(LibInfo, Vec<u8>)>) -> (r: Result<
    AllSymbols,
    DepFindError,
>)
    ensures
        r is Ok <==> !has_conflict(input_view(libs@)),
        (match r {
            Ok(tbl) => {
                &&& tbl.wf()
                &&& tbl.undefined@.map_values(|p: (UnDefinedSymbol, LibInfo)| (p.0@, p.1))
                    == undefined_pairs(input_view(libs@))
                &&& forall|s: Seq<u8>|
                    #![trigger table_defines(tbl.defined@, s)]
                    (table_defines(tbl.defined@, s) <==> input_defines(input_view(libs@), s))
                &&& forall|s: Seq<u8>| #[trigger] lookup_is_last_definer_in(
                    tbl.defined@,
                    input_view(libs@),
                    libs@.len() as int,
                    s,
                )
            },
            Err(e) => {
                &&& e matches DepFindError::MultipleDefines { dependency_a, dependency_b, symbol }
                    && input_requires(input_view(libs@), symbol@) && (exists|k1: int, k2: int|
                    0 <= k1 < k2 < libs@.len() && lib_defines(input_view(libs@), k1, symbol@)
                    && lib_defines(
                        input_view(libs@),
                        k2,
                        symbol@,
                    ) && dependency_a@ == libs@[k1].0.name@ && dependency_b@ == libs@[k2].0.name@)
            },
        }),
{
    let ghost inp = input_view(libs@);
    let mut defined_table: Vec<(DefinedSymbol, LibInfo)> = Vec::new();
    let mut undefined_table: Vec<(UnDefinedSymbol, LibInfo)> = Vec::new();
    let mut duplicates: Vec<(DefinedSymbol, LibInfo, LibInfo)> = Vec::new();
    let mut k: usize = 0;
    while k < libs.len()
        invariant
            inp == input_view(libs@),
            k <= inp.len(),
            table_keys(defined_table@).no_duplicates(),
            forall|s: Seq<u8>|
                #![trigger table_defines(defined_table@, s)]
                (table_defines(defined_table@, s) <==> exists|k1: int|
                    0 <= k1 < k && lib_defines(inp, k1, s)),
            forall|s: Seq<u8>| #[trigger] lookup_is_last_definer_in(
                defined_table@,
                inp,
                k as int,
                s,
            ),
            undefined_table@.map_values(|p: (UnDefinedSymbol, LibInfo)| (p.0@, p.1))
                == undefined_pairs_up_to(inp, k as int),
            forall|d: int|
                0 <= d < duplicates@.len() ==> dup_entry_sound(
                    inp,
                    #[trigger] duplicates@[d],
                    k as int,
                ),
            forall|s: Seq<u8>, k1: int, k2: int|
                #![trigger lib_defines(inp, k1, s), lib_defines(inp, k2, s)]
                0 <= k1 < k2 < k && lib_defines(inp, k1, s) && lib_defines(inp, k2, s)
                    ==> exists|d: int|
                    0 <= d < duplicates@.len() && (#[trigger] duplicates@[d]).0@ == s,
        decreases inp.len() - k,
    {
        let lib = libs[k].0.clone();
        let (def_syms, undef_syms) = get_symbols(&libs[k].1);
        let ghost dv = def_syms.deep_view();
        let ghost uv = undef_syms.deep_view();
        proof {
            assert(inp[k as int] == (libs@[k as int].0, libs@[k as int].1@));
            assert(dv == dedup_first(archive_defined(inp[k as int].1)));
            lemma_dedup_first_no_duplicates(archive_defined(inp[k as int].1));
            assert forall|s: Seq<u8>|
                #![trigger dv.contains(s)]
                (dv.contains(s) <==> lib_defines(inp, k as int, s)) by {
                lemma_dedup_first_contains(archive_defined(inp[k as int].1), s);
            }
        }
        proof {
            assert forall|d: int| 0 <= d < duplicates@.len() implies dup_entry_sound(
                inp,
                #[trigger] duplicates@[d],
                k as int + 1,
            ) by {
                lemma_dup_entry_sound_widen(inp, duplicates@[d], k as int, k as int + 1);
            }
        }
        let ghost t0 = defined_table@;
        let mut j: usize = 0;
        while j < def_syms.len()
            invariant
                inp == input_view(libs@),
                k < inp.len(),
                j <= def_syms@.len(),
                dv == def_syms.deep_view(),
                dv.no_duplicates(),
                forall|s: Seq<u8>|
                    #![trigger dv.contains(s)]
                    (dv.contains(s) <==> lib_defines(inp, k as int, s)),
                lib == inp[k as int].0,
                table_keys(defined_table@).no_duplicates(),
                forall|s: Seq<u8>|
                    #![trigger table_defines(t0, s)]
                    (table_defines(t0, s) <==> exists|k1: int|
                        0 <= k1 < k && lib_defines(inp, k1, s)),
                forall|s: Seq<u8>| #[trigger] lookup_is_last_definer_in(t0, inp, k as int, s),
                forall|s: Seq<u8>|
                    #![trigger table_defines(defined_table@, s)]
                    (table_defines(defined_table@, s) <==> table_defines(t0, s) || dv.take(
                        j as int,
                    ).contains(s)),
                forall|t: int|
                    0 <= t < j ==> table_lookup(defined_table@, #[trigger] dv[t]) == Some(
                        inp[k as int].0,
                    ),
                forall|s: Seq<u8>|
                    !dv.take(j as int).contains(s) ==> #[trigger] table_lookup(defined_table@, s)
                        == table_lookup(t0, s),
                forall|d: int|
                    0 <= d < duplicates@.len() ==> dup_entry_sound(
                        inp,
                        #[trigger] duplicates@[d],
                        k as int + 1,
                    ),
                forall|s: Seq<u8>, k1: int, k2: int|
                    #![trigger lib_defines(inp, k1, s), lib_defines(inp, k2, s)]
                    0 <= k1 < k2 <= k && (k2 == k ==> dv.take(j as int).contains(s))
                        && lib_defines(inp, k1, s) && lib_defines(inp, k2, s) ==> exists|d: int|
                        0 <= d < duplicates@.len() && (#[trigger] duplicates@[d]).0@ == s,
            decreases def_syms@.len() - j,
        {
            let sym = def_syms[j].clone();
            let ghost s = dv[j as int];
            proof {
                assert(def_syms@[j as int].deep_view() == dv[j as int]);
                assert(sym@ == s);
                assert(dv.contains(s));
                assert(!dv.take(j as int).contains(s)) by {
                    if dv.take(j as int).contains(s) {
                        let t = choose|t: int|
                            0 <= t < j && #[trigger] dv.take(j as int)[t] == s;
                        assert(dv[t] == dv[j as int]);
                    }
                }
            }
            let ghost tb = defined_table@;
            let ghost dups0 = duplicates@;
            match table_insert(&mut defined_table, sym, lib.clone()) {
                Some(first_define) => {
                    proof {
                        assert(table_lookup(tb, s) == Some(first_define));
                        assert(table_lookup(tb, s) == table_lookup(t0, s));
                        assert(lookup_is_last_definer_in(t0, inp, k as int, s));
                    }
                    duplicates.push((def_syms[j].clone(), first_define, lib.clone()));
                    proof {
                        let kprev = choose|k1: int|
                            0 <= k1 < k && lib_defines(inp, k1, s) && first_define == inp[k1].0
                                && (forall|k2: int| k1 < k2 < k ==> !lib_defines(inp, k2, s));
                        let dnew = duplicates@.len() - 1;
                        assert(duplicates@[dnew].0@ == s);
                        assert(duplicates@[dnew].1 == inp[kprev].0);
                        assert(duplicates@[dnew].2 == inp[k as int].0);
                        assert(lib_defines(inp, k as int, s));
                        assert(dup_entry_sound(inp, duplicates@[dnew], k as int + 1)) by {
                            assert(0 <= kprev < (k as int) && (k as int) < k as int + 1
                                && lib_defines(inp, kprev, duplicates@[dnew].0@) && lib_defines(
                                inp,
                                k as int,
                                duplicates@[dnew].0@,
                            ) && duplicates@[dnew].1 == inp[kprev].0 && duplicates@[dnew].2
                                == inp[k as int].0);
                        }
                        assert forall|d: int| 0 <= d < duplicates@.len() implies dup_entry_sound(
                            inp,
                            #[trigger] duplicates@[d],
                            k as int + 1,
                        ) by {
                            if d < dups0.len() {
                                assert(duplicates@[d] == dups0[d]);
                            }
                        }
                        assert(duplicates@[dnew].0@ == s);
                    }
                },
                None => {
                    proof {
                        assert(table_lookup(tb, s) == table_lookup(t0, s));
                        assert(!table_defines(t0, s));
                        assert forall|k1: int| 0 <= k1 < k implies !lib_defines(inp, k1, s) by {
                            if lib_defines(inp, k1, s) {
                                assert(table_defines(t0, s));
                            }
                        }
                    }
                },
            }
            proof {
                assert((exists|d: int|
                    0 <= d < duplicates@.len() && (#[trigger] duplicates@[d]).0@ == s) || (forall|
                    k1: int,
                |
                    0 <= k1 < k ==> !lib_defines(inp, k1, s)));
                assert forall|s2: Seq<u8>, k1: int, k2: int|
                    #![trigger lib_defines(inp, k1, s2), lib_defines(inp, k2, s2)]
                    0 <= k1 < k2 <= k && (k2 == k ==> dv.take(j as int + 1).contains(s2))
                        && lib_defines(inp, k1, s2) && lib_defines(inp, k2, s2) implies exists|
                    d: int,
                |
                    0 <= d < duplicates@.len() && (#[trigger] duplicates@[d]).0@ == s2 by {
                    let old_applies = k2 < k || dv.take(j as int).contains(s2);
                    if old_applies {
                        let d = choose|d: int|
                            0 <= d < dups0.len() && (#[trigger] dups0[d]).0@ == s2;
                        assert(duplicates@[d] == dups0[d]);
                    } else {
                        assert(k2 == k && dv.take(j as int + 1).contains(s2));
                        assert(s2 == s) by {
                            let t = choose|t: int|
                                0 <= t < j + 1 && #[trigger] dv.take(j as int + 1)[t] == s2;
                            if t < j {
                                assert(dv.take(j as int)[t] == s2);
                            } else {
                                assert(dv[t] == s);
                            }
                        }
                        if exists|d: int|
                            0 <= d < duplicates@.len() && (#[trigger] duplicates@[d]).0@ == s {
                        } else {
                            assert(!lib_defines(inp, k1, s));
                        }
                    }
                }
            }
            proof {
                assert(dv.take(j as int + 1) =~= dv.take(j as int).push(s));
                assert forall|t: int|
                    0 <= t < j + 1 implies table_lookup(defined_table@, #[trigger] dv[t]) == Some(
                    inp[k as int].0,
                ) by {
                    if t < j {
                        assert(dv[t] != s);
                        assert(table_lookup(tb, dv[t]) == Some(inp[k as int].0));
                    } else {
                        assert(dv[t] == s);
                    }
                }
                assert forall|s2: Seq<u8>|
                    !dv.take(j as int + 1).contains(s2) implies #[trigger] table_lookup(
                    defined_table@,
                    s2,
                ) == table_lookup(t0, s2) by {
                    assert(!dv.take(j as int).contains(s2)) by {
                        if dv.take(j as int).contains(s2) {
                            let t = choose|t: int|
                                0 <= t < j && #[trigger] dv.take(j as int)[t] == s2;
                            assert(dv.take(j as int + 1)[t] == s2);
                        }
                    }
                    assert(s2 != s) by {
                        if s2 == s {
                            assert(dv.take(j as int + 1)[j as int] == s);
                        }
                    }
                }
                assert forall|s2: Seq<u8>|
                    #![trigger table_defines(defined_table@, s2)]
                    (table_defines(defined_table@, s2) <==> table_defines(t0, s2) || dv.take(
                        j as int + 1,
                    ).contains(s2)) by {
                    if dv.take(j as int + 1).contains(s2) {
                        let t = choose|t: int|
                            0 <= t < j + 1 && #[trigger] dv.take(j as int + 1)[t] == s2;
                        if t < j {
                            assert(dv.take(j as int)[t] == s2);
                        } else {
                            assert(s2 == s);
                        }
                    }
                    if table_defines(defined_table@, s2) && s2 != s && !table_defines(t0, s2) {
                        assert(table_defines(tb, s2));
                        assert(dv.take(j as int).contains(s2));
                        let t = choose|t: int|
                            0 <= t < j && #[trigger] dv.take(j as int)[t] == s2;
                        assert(dv.take(j as int + 1)[t] == s2);
                    }
                    if table_defines(t0, s2) || dv.take(j as int + 1).contains(s2) {
                        if s2 == s {
                            assert(table_defines(defined_table@, s2));
                        } else if table_defines(t0, s2) {
                            assert(table_defines(tb, s2));
                            assert(table_defines(defined_table@, s2));
                        } else {
                            assert(dv.take(j as int).contains(s2));
                            assert(table_defines(tb, s2));
                            assert(table_defines(defined_table@, s2));
                        }
                    }
                }
            }
            j = j + 1;
        }
        proof {
            assert(dv.take(dv.len() as int) =~= dv);
            assert forall|s: Seq<u8>|
                #![trigger table_defines(defined_table@, s)]
                (table_defines(defined_table@, s) <==> exists|k1: int|
                    0 <= k1 < k + 1 && lib_defines(inp, k1, s)) by {
                if table_defines(defined_table@, s) {
                    if table_defines(t0, s) {
                        let k1 = choose|k1: int| 0 <= k1 < k && lib_defines(inp, k1, s);
                        assert(0 <= k1 < k + 1 && lib_defines(inp, k1, s));
                    } else {
                        assert(dv.contains(s));
                        assert(lib_defines(inp, k as int, s));
                    }
                }
                if exists|k1: int| 0 <= k1 < k + 1 && lib_defines(inp, k1, s) {
                    let k1 = choose|k1: int| 0 <= k1 < k + 1 && lib_defines(inp, k1, s);
                    if k1 < k {
                        assert(table_defines(t0, s));
                    } else {
                        assert(dv.contains(s));
                    }
                }
            }
            assert forall|s: Seq<u8>| #[trigger] lookup_is_last_definer_in(
                defined_table@,
                inp,
                k as int + 1,
                s,
            ) by {
                if table_lookup(defined_table@, s) is Some {
                    let l = table_lookup(defined_table@, s).unwrap();
                    if dv.contains(s) {
                        let t = choose|t: int| 0 <= t < dv.len() && dv[t] == s;
                        assert(table_lookup(defined_table@, dv[t]) == Some(inp[k as int].0));
                        assert(l == inp[k as int].0);
                        assert(lib_defines(inp, k as int, s) && l == inp[k as int].0 && (forall|
                            k2: int,
                        |
                            (k as int) < k2 < (k as int) + 1 ==> !lib_defines(inp, k2, s)));
                    } else {
                        assert(table_lookup(defined_table@, s) == table_lookup(t0, s));
                        assert(lookup_is_last_definer_in(t0, inp, k as int, s));
                        let k1 = choose|k1: int|
                            0 <= k1 < k && lib_defines(inp, k1, s) && l == inp[k1].0 && (forall|
                                k2: int,
                            |
                                k1 < k2 < k ==> !lib_defines(inp, k2, s));
                        assert(!lib_defines(inp, k as int, s));
                        assert(0 <= k1 < k as int + 1 && lib_defines(inp, k1, s) && l == inp[k1].0
                            && (forall|k2: int|
                            k1 < k2 < k as int + 1 ==> !lib_defines(inp, k2, s)));
                    }
                }
            }
            assert forall|s: Seq<u8>, k1: int, k2: int|
                #![trigger lib_defines(inp, k1, s), lib_defines(inp, k2, s)]
                0 <= k1 < k2 < k + 1 && lib_defines(inp, k1, s) && lib_defines(inp, k2, s)
                    implies exists|d: int|
                    0 <= d < duplicates@.len() && (#[trigger] duplicates@[d]).0@ == s by {
                if k2 == k {
                    assert(dv.contains(s));
                    assert(dv.take(dv.len() as int).contains(s));
                }
            }
        }
        let mut j2: usize = 0;
        while j2 < undef_syms.len()
            invariant
                inp == input_view(libs@),
                k < inp.len(),
                j2 <= undef_syms@.len(),
                uv == undef_syms.deep_view(),
                lib == inp[k as int].0,
                undefined_table@.map_values(|p: (UnDefinedSymbol, LibInfo)| (p.0@, p.1))
                    == undefined_pairs_up_to(inp, k as int) + uv.take(j2 as int).map_values(
                    |s2: Seq<u8>| (s2, inp[k as int].0),
                ),
                table_keys(defined_table@).no_duplicates(),
                forall|s: Seq<u8>|
                    #![trigger table_defines(defined_table@, s)]
                    (table_defines(defined_table@, s) <==> exists|k1: int|
                        0 <= k1 < k + 1 && lib_defines(inp, k1, s)),
                forall|s: Seq<u8>| #[trigger] lookup_is_last_definer_in(
                    defined_table@,
                    inp,
                    k as int + 1,
                    s,
                ),
                forall|d: int|
                    0 <= d < duplicates@.len() ==> dup_entry_sound(
                        inp,
                        #[trigger] duplicates@[d],
                        k as int + 1,
                    ),
                forall|s: Seq<u8>, k1: int, k2: int|
                    #![trigger lib_defines(inp, k1, s), lib_defines(inp, k2, s)]
                    0 <= k1 < k2 < k + 1 && lib_defines(inp, k1, s) && lib_defines(inp, k2, s)
                        ==> exists|d: int|
                        0 <= d < duplicates@.len() && (#[trigger] duplicates@[d]).0@ == s,
            decreases undef_syms@.len() - j2,
        {
            let ghost ut = undefined_table@;
            undefined_table.push((undef_syms[j2].clone(), lib.clone()));
            proof {
                assert(undef_syms@[j2 as int].deep_view() == uv[j2 as int]);
                assert(uv.take(j2 as int + 1) =~= uv.take(j2 as int).push(uv[j2 as int]));
                assert(undefined_table@.map_values(|p: (UnDefinedSymbol, LibInfo)| (p.0@, p.1))
                    =~= ut.map_values(|p: (UnDefinedSymbol, LibInfo)| (p.0@, p.1)).push(
                    (uv[j2 as int], inp[k as int].0),
                ));
                assert(undefined_pairs_up_to(inp, k as int) + uv.take(j2 as int + 1).map_values(
                    |s2: Seq<u8>| (s2, inp[k as int].0),
                ) =~= (undefined_pairs_up_to(inp, k as int) + uv.take(j2 as int).map_values(
                    |s2: Seq<u8>| (s2, inp[k as int].0),
                )).push((uv[j2 as int], inp[k as int].0)));
            }
            j2 = j2 + 1;
        }
        proof {
            assert(uv.take(uv.len() as int) =~= uv);
            assert(uv == archive_undefined(inp[k as int].1));
            assert(undefined_pairs_up_to(inp, k as int + 1) == undefined_pairs_up_to(inp, k as int)
                + archive_undefined(inp[k as int].1).map_values(
                |s2: Seq<u8>| (s2, inp[k as int].0),
            ));
        }
        k = k + 1;
    }
    let ghost upairs = undefined_pairs(inp);
    proof {
        assert forall|dd: int| 0 <= dd < duplicates@.len() implies dup_entry_sound(
            inp,
            #[trigger] duplicates@[dd],
            inp.len() as int,
        ) by {
            assert(k as int == inp.len() as int);
            assert(dup_entry_sound(inp, duplicates@[dd], k as int));
        }
    }
    let mut d: usize = 0;
    while d < duplicates.len()
        invariant
            inp == input_view(libs@),
            d <= duplicates@.len(),
            table_keys(defined_table@).no_duplicates(),
            forall|s: Seq<u8>|
                #![trigger table_defines(defined_table@, s)]
                (table_defines(defined_table@, s) <==> input_defines(inp, s)),
            forall|s: Seq<u8>| #[trigger] lookup_is_last_definer_in(
                defined_table@,
                inp,
                inp.len() as int,
                s,
            ),
            undefined_table@.map_values(|p: (UnDefinedSymbol, LibInfo)| (p.0@, p.1)) == upairs,
            upairs == undefined_pairs(inp),
            forall|dd: int|
                0 <= dd < duplicates@.len() ==> dup_entry_sound(
                    inp,
                    #[trigger] duplicates@[dd],
                    inp.len() as int,
                ),
            forall|s: Seq<u8>, k1: int, k2: int|
                #![trigger lib_defines(inp, k1, s), lib_defines(inp, k2, s)]
                0 <= k1 < k2 < inp.len() && lib_defines(inp, k1, s) && lib_defines(inp, k2, s)
                    ==> exists|dd: int|
                    0 <= dd < duplicates@.len() && (#[trigger] duplicates@[dd]).0@ == s,
            forall|t: int| 0 <= t < d ==> !input_requires(inp, (#[trigger] duplicates@[t]).0@),
        decreases duplicates@.len() - d,
    {
        let ghost s = duplicates@[d as int].0@;
        if undefined_contains(&undefined_table, &duplicates[d].0.symbol) {
            proof {
                let jj = choose|jj: int|
                    0 <= jj < undefined_table@.len() && (#[trigger] undefined_table@[jj]).0@ == s;
                assert(undefined_table@.map_values(|p: (UnDefinedSymbol, LibInfo)| (p.0@, p.1))[jj]
                    == (undefined_table@[jj].0@, undefined_table@[jj].1));
                assert(upairs[jj].0 == s);
                lemma_undefined_pairs_membership(inp, inp.len() as int, s);
                assert(input_requires(inp, s));
            }
            let dependency_a = duplicates[d].1.name.clone();
            let dependency_b = duplicates[d].2.name.clone();
            let symbol = duplicates[d].0.clone();
            proof {
                assert(dup_entry_sound(inp, duplicates@[d as int], inp.len() as int));
                let e = duplicates@[d as int];
                let (k1, k2) = choose|k1: int, k2: int|
                    0 <= k1 < k2 < inp.len() && lib_defines(inp, k1, e.0@) && lib_defines(
                        inp,
                        k2,
                        e.0@,
                    ) && e.1 == inp[k1].0 && e.2 == inp[k2].0;
                assert(dependency_a@ == inp[k1].0.name@);
                assert(dependency_b@ == inp[k2].0.name@);
                assert(has_conflict(inp));
            }
            return Err(DepFindError::MultipleDefines { dependency_a, dependency_b, symbol });
        }
        proof {
            assert(!(exists|jj: int|
                0 <= jj < undefined_table@.len() && (#[trigger] undefined_table@[jj]).0@ == s));
            assert(!input_requires(inp, s)) by {
                if input_requires(inp, s) {
                    lemma_undefined_pairs_membership(inp, inp.len() as int, s);
                    let jj = choose|jj: int|
                        0 <= jj < upairs.len() && (#[trigger] upairs[jj]).0 == s;
                    assert(undefined_table@.map_values(
                        |p: (UnDefinedSymbol, LibInfo)| (p.0@, p.1),
                    )[jj] == (undefined_table@[jj].0@, undefined_table@[jj].1));
                    assert(undefined_table@[jj].0@ == s);
                }
            }
        }
        d = d + 1;
    }
    proof {
        assert(!has_conflict(inp)) by {
            if has_conflict(inp) {
                let (k1, k2, s) = choose|k1: int, k2: int, s: Seq<u8>|
                    0 <= k1 < k2 < inp.len() && lib_defines(inp, k1, s) && lib_defines(inp, k2, s)
                        && input_requires(inp, s);
                let dd = choose|dd: int|
                    0 <= dd < duplicates@.len() && (#[trigger] duplicates@[dd]).0@ == s;
                assert(!input_requires(inp, duplicates@[dd].0@));
            }
        }
    }
    Ok(AllSymbols { defined: defined_table, undefined: undefined_table })
}

/// Duplicate tolerance: when no symbol defined by two distinct libraries
/// is required anywhere, no conflict exists, so table construction
/// succeeds. A benign duplicate alone never fails a run.
pub proof fn lemma_duplicate_tolerance(inp: Seq<(LibInfo, Seq<u8>)>)
    requires
        forall|s: Seq<u8>, k1: int, k2: int|
            #![trigger lib_defines(inp, k1, s), lib_defines(inp, k2, s)]
            0 <= k1 < k2 < inp.len() && lib_defines(inp, k1, s) && lib_defines(inp, k2, s)
                ==> !input_requires(inp, s),
    ensures
        !has_conflict(inp),
{
    if has_conflict(inp) {
        let (k1, k2, s) = choose|k1: int, k2: int, s: Seq<u8>|
            0 <= k1 < k2 < inp.len() && lib_defines(inp, k1, s) && lib_defines(inp, k2, s)
                && input_requires(inp, s);
        assert(!input_requires(inp, s));
    }
}

/// Duplicate conflict: a symbol defined by two distinct libraries and
/// required by some library always makes the run fail.
pub proof fn lemma_duplicate_conflict(inp: Seq<(LibInfo, Seq<u8>)>, k1: int, k2: int, s: Seq<u8>)
    requires
        0 <= k1 < k2 < inp.len(),
        lib_defines(inp, k1, s),
        lib_defines(inp, k2, s),
        input_requires(inp, s),
    ensures
        has_conflict(inp),
{
}

/// Reports whether any undefined pair carries the given symbol bytes.
fn undefined_contains(u: &Vec<(UnDefinedSymbol, LibInfo)>, b: &Vec<u8>) -> (r: bool)
    ensures
        r == exists|j: int| 0 <= j < u@.len() && (#[trigger] u@[j]).0@ == b@,
{
    let mut i: usize = 0;
    while i < u.len()
        invariant
            i <= u@.len(),
            forall|k: int| 0 <= k < i ==> (#[trigger] u@[k]).0@ != b@,
        decreases u@.len() - i,
    {
        if bytes_eq(&u[i].0.symbol, b) {
            return true;
        }
        i = i + 1;
    }
    false
}

} // verus!
