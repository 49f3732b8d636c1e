//! The search operation: case-insensitive substring matching against the
//! catalog, against the name always and, per flag, against the short
//! description, the long description and the dependency names; the hits
//! come back as names in lexicographic order.

use vstd::prelude::*;
use crate::index::{PackageIndex, spec_find, lemma_find_at_unique, lemma_find_position};
use crate::pkg::{Package, PackageView};
use crate::strutil::{
    spec_contains, str_contains, lex_le, str_le, lemma_lex_le_total, lemma_lex_le_trans,
};

verus! {

/// What `str::to_lowercase` returns for a given character sequence.
pub uninterp spec fn lower_of(s: Seq<char>) -> Seq<char>;

/// Relies on str::to_lowercase: the result is the Unicode lowercase
/// mapping of the input's characters, a function of them alone.
#[verifier::external_body]
fn to_lowercase(s: &str) -> (r: String)
    ensures
        r@ == lower_of(s@),
{
    s.to_lowercase()
}

/// Whether a package matches a lowered search term under the given flags.
pub open spec fn spec_matches(
    p: PackageView,
    term_low: Seq<char>,
    search_desc: bool,
    search_deps: bool,
    search_long: bool,
) -> bool {
    ||| spec_contains(lower_of(p.name), term_low)
    ||| (search_desc && match p.description {
        Some(d) => spec_contains(lower_of(d), term_low),
        None => false,
    })
    ||| (search_long && match p.longdesc {
        Some(d) => spec_contains(lower_of(d), term_low),
        None => false,
    })
    ||| (search_deps && exists|k: int|
        0 <= k < p.depends.len() && spec_contains(lower_of(#[trigger] p.depends[k]), term_low))
}

/// Decide `spec_matches` for one package.
fn package_matches(
    p: &Package,
    term_low: &str,
    search_desc: bool,
    search_deps: bool,
    search_long: bool,
) -> (r: bool)
    ensures
        r == spec_matches(p@, term_low@, search_desc, search_deps, search_long),
{
    let name_low = to_lowercase(p.name.as_str());
    if str_contains(name_low.as_str(), term_low) {
        return true;
    }
    if search_desc {
        match &p.description {
            Some(d) => {
                let dl = to_lowercase(d.as_str());
                if str_contains(dl.as_str(), term_low) {
                    return true;
                }
            },
            None => {},
        }
    }
    if search_long {
        match &p.longdesc {
            Some(d) => {
                let dl = to_lowercase(d.as_str());
                if str_contains(dl.as_str(), term_low) {
                    return true;
                }
            },
            None => {},
        }
    }
    if search_deps {
        let n = p.depends.len();
        let mut k: usize = 0;
        while k < n
            invariant
                search_deps,
                0 <= k <= n,
                n == p@.depends.len(),
                forall|j: int|
                    0 <= j < k ==> !spec_contains(lower_of(#[trigger] p@.depends[j]), term_low@),
            decreases n - k,
        {
            proof {
                assert(p.depends@[k as int]@ == p@.depends[k as int]);
            }
            let dl = to_lowercase(p.depends[k].as_str());
            if str_contains(dl.as_str(), term_low) {
                proof {
                    assert(0 <= (k as int) < p@.depends.len() && spec_contains(
                        lower_of(p@.depends[k as int]),
                        term_low@,
                    ));
                    assert(exists|kk: int|
                        0 <= kk < p@.depends.len() && spec_contains(
                            lower_of(#[trigger] p@.depends[kk]),
                            term_low@,
                        ));
                }
                return true;
            }
            k = k + 1;
        }
    }
    false
}

/// Names in lexicographic order.
pub open spec fn spec_sorted_names(s: Seq<Seq<char>>) -> bool {
    forall|i: int, j: int| 0 <= i < j < s.len() ==> lex_le(#[trigger] s[i], #[trigger] s[j])
}

/// Insert a name a sorted list does not yet hold, keeping it sorted.
pub fn insert_sorted(out: &mut Vec<String>, s: String)
    requires
        spec_sorted_names(old(out).deep_view()),
        !old(out).deep_view().contains(s@),
        old(out).deep_view().no_duplicates(),
    ensures
        spec_sorted_names(final(out).deep_view()),
        final(out).deep_view().no_duplicates(),
        forall|n: Seq<char>|
            #[trigger] final(out).deep_view().contains(n) <==> (old(out).deep_view().contains(n)
                || n == s@),
{
    let ghost dv = out.deep_view();
    let ghost sv = s@;
    let n = out.len();
    let mut k: usize = 0;
    while k < n && !str_le(s.as_str(), out[k].as_str())
        invariant
            0 <= k <= n,
            n == dv.len(),
            dv == out.deep_view(),
            sv == s@,
            forall|m: int| 0 <= m < k ==> !lex_le(sv, #[trigger] dv[m]),
        decreases n - k,
    {
        proof {
            assert(out@[k as int]@ == dv[k as int]);
        }
        k = k + 1;
    }
    proof {
        if k < n {
            assert(out@[k as int]@ == dv[k as int]);
        }
    }
    out.insert(k, s);
    proof {
        let now = out.deep_view();
        assert(now =~= dv.insert(k as int, sv)) by {
            assert(out@ =~= old(out)@.insert(k as int, s));
            assert forall|x: int| 0 <= x < now.len() implies now[x] == dv.insert(k as int, sv)[x]
                by {
                assert(now[x] == out@[x]@);
                if x < k {
                    assert(out@[x] == old(out)@[x]);
                } else if x == k {
                    assert(out@[x] == s);
                } else {
                    assert(out@[x] == old(out)@[x - 1]);
                }
            };
        };
        assert forall|m: int| 0 <= m < k implies lex_le(dv[m], sv) by {
            lemma_lex_le_total(sv, dv[m]);
        };
        assert forall|i: int, j: int| 0 <= i < j < now.len() implies lex_le(
            #[trigger] now[i],
            #[trigger] now[j],
        ) by {
            if j < k {
                assert(now[i] == dv[i] && now[j] == dv[j]);
            } else if j == k {
                assert(now[i] == dv[i]);
                assert(lex_le(dv[i], sv));
            } else {
                if i < k {
                    assert(now[i] == dv[i] && now[j] == dv[j - 1]);
                    assert(i < j - 1);
                    assert(lex_le(dv[i], dv[j - 1]));
                } else if i == k {
                    assert(now[i] == sv && now[j] == dv[j - 1]);
                    assert(k < n);
                    assert(lex_le(sv, dv[k as int]));
                    if (k as int) < j - 1 {
                        assert(lex_le(dv[k as int], dv[j - 1]));
                        lemma_lex_le_trans(sv, dv[k as int], dv[j - 1]);
                    }
                } else {
                    assert(now[i] == dv[i - 1] && now[j] == dv[j - 1]);
                }
            }
        };
        assert forall|i: int, j: int| 0 <= i < j < now.len() implies now[i] != now[j] by {
            if j < k {
                assert(now[i] == dv[i] && now[j] == dv[j]);
            } else if j == k {
                assert(now[i] == dv[i]);
                assert(dv.contains(dv[i]));
            } else if i == k {
                assert(now[j] == dv[j - 1]);
                assert(dv.contains(dv[j - 1]));
            } else if i < k {
                assert(now[i] == dv[i] && now[j] == dv[j - 1]);
            } else {
                assert(now[i] == dv[i - 1] && now[j] == dv[j - 1]);
            }
        };
        assert forall|nm: Seq<char>| #[trigger] now.contains(nm) implies (dv.contains(nm) || nm
            == sv) by {
            let x = choose|x: int| 0 <= x < now.len() && now[x] == nm;
            if x < k {
                assert(dv[x] == nm);
            } else if x == k {
            } else {
                assert(dv[x - 1] == nm);
            }
        };
        assert forall|nm: Seq<char>| (dv.contains(nm) || nm == sv) implies #[trigger] now.contains(
            nm,
        ) by {
            if nm == sv {
                assert(now[k as int] == nm);
            } else {
                let x = choose|x: int| 0 <= x < dv.len() && dv[x] == nm;
                if x < k {
                    assert(now[x] == nm);
                } else {
                    assert(now[x + 1] == nm);
                }
            }
        };
    }
}

/// `search <term>`: the names of the matching packages, sorted.  A name
/// is in the result exactly when the index carries it and its record
/// matches the lowered term under the flags.
pub fn search_packages(
    idx: &PackageIndex,
    term: &str,
    search_desc: bool,
    search_deps: bool,
    search_long: bool,
) -> (r: Vec<String>)
    requires
        idx.wf(),
    ensures
        spec_sorted_names(r.deep_view()),
        r.deep_view().no_duplicates(),
        forall|nm: Seq<char>|
            #[trigger] r.deep_view().contains(nm) <==> match spec_find(idx@, nm) {
                Some(p) => spec_matches(p, lower_of(term@), search_desc, search_deps, search_long),
                None => false,
            },
{
    let term_low = to_lowercase(term);
    let mut out: Vec<String> = Vec::new();
    let n = idx.packages.len();
    let mut i: usize = 0;
    while i < n
        invariant
            0 <= i <= n,
            n == idx@.len(),
            idx.wf(),
            term_low@ == lower_of(term@),
            spec_sorted_names(out.deep_view()),
            out.deep_view().no_duplicates(),
            forall|nm: Seq<char>|
                #[trigger] out.deep_view().contains(nm) <==> (exists|k: int|
                    0 <= k < i && (#[trigger] idx@[k]).name == nm && spec_matches(
                        idx@[k],
                        lower_of(term@),
                        search_desc,
                        search_deps,
                        search_long,
                    )),
        decreases n - i,
    {
        proof {
            assert(idx.packages@[i as int]@ == idx@[i as int]);
        }
        if package_matches(&idx.packages[i], term_low.as_str(), search_desc, search_deps,
            search_long) {
            proof {
                assert(!out.deep_view().contains(idx@[i as int].name)) by {
                    if out.deep_view().contains(idx@[i as int].name) {
                        let k = choose|k: int|
                            0 <= k < i && (#[trigger] idx@[k]).name == idx@[i as int].name
                                && spec_matches(
                                idx@[k],
                                lower_of(term@),
                                search_desc,
                                search_deps,
                                search_long,
                            );
                    }
                };
            }
            let ghost before = out.deep_view();
            insert_sorted(&mut out, idx.packages[i].name.clone());
            proof {
                assert forall|nm: Seq<char>| #[trigger] out.deep_view().contains(nm) implies (
                exists|k: int|
                    0 <= k < i + 1 && (#[trigger] idx@[k]).name == nm && spec_matches(
                        idx@[k],
                        lower_of(term@),
                        search_desc,
                        search_deps,
                        search_long,
                    )) by {
                    if before.contains(nm) {
                    } else {
                        assert(nm == idx@[i as int].name);
                        assert((idx@[i as int]).name == nm && spec_matches(
                            idx@[i as int],
                            lower_of(term@),
                            search_desc,
                            search_deps,
                            search_long,
                        ));
                    }
                };
                assert forall|nm: Seq<char>|
                    (exists|k: int|
                        0 <= k < i + 1 && (#[trigger] idx@[k]).name == nm && spec_matches(
                            idx@[k],
                            lower_of(term@),
                            search_desc,
                            search_deps,
                            search_long,
                        )) implies #[trigger] out.deep_view().contains(nm) by {
                    let k = choose|k: int|
                        0 <= k < i + 1 && (#[trigger] idx@[k]).name == nm && spec_matches(
                            idx@[k],
                            lower_of(term@),
                            search_desc,
                            search_deps,
                            search_long,
                        );
                    if k < i {
                        assert(before.contains(nm));
                    }
                };
            }
        } else {
            proof {
                assert forall|nm: Seq<char>|
                    #[trigger] out.deep_view().contains(nm) <==> (exists|k: int|
                        0 <= k < i + 1 && (#[trigger] idx@[k]).name == nm && spec_matches(
                            idx@[k],
                            lower_of(term@),
                            search_desc,
                            search_deps,
                            search_long,
                        )) by {
                    if out.deep_view().contains(nm) {
                        let k = choose|k: int|
                            0 <= k < i && (#[trigger] idx@[k]).name == nm && spec_matches(
                                idx@[k],
                                lower_of(term@),
                                search_desc,
                                search_deps,
                                search_long,
                            );
                    } else {
                        if exists|k: int|
                            0 <= k < i + 1 && (#[trigger] idx@[k]).name == nm && spec_matches(
                                idx@[k],
                                lower_of(term@),
                                search_desc,
                                search_deps,
                                search_long,
                            ) {
                            let k = choose|k: int|
                                0 <= k < i + 1 && (#[trigger] idx@[k]).name == nm && spec_matches(
                                    idx@[k],
                                    lower_of(term@),
                                    search_desc,
                                    search_deps,
                                    search_long,
                                );
                            assert(k < i);
                        }
                    }
                };
            }
        }
        i = i + 1;
    }
    proof {
        assert forall|nm: Seq<char>|
            #[trigger] out.deep_view().contains(nm) <==> match spec_find(idx@, nm) {
                Some(p) => spec_matches(p, lower_of(term@), search_desc, search_deps, search_long),
                None => false,
            } by {
            if out.deep_view().contains(nm) {
                let k = choose|k: int|
                    0 <= k < n && (#[trigger] idx@[k]).name == nm && spec_matches(
                        idx@[k],
                        lower_of(term@),
                        search_desc,
                        search_deps,
                        search_long,
                    );
                lemma_find_at_unique(idx@, k);
            } else {
                match spec_find(idx@, nm) {
                    Some(p) => {
                        if spec_matches(p, lower_of(term@), search_desc, search_deps,
                            search_long) {
                            lemma_find_position(idx@, nm);
                            let k = choose|k: int|
                                0 <= k < idx@.len() && (#[trigger] idx@[k]).name == nm
                                    && spec_find(idx@, nm) == Some(idx@[k]);
                            assert(idx@[k].name == nm && spec_matches(
                                idx@[k],
                                lower_of(term@),
                                search_desc,
                                search_deps,
                                search_long,
                            ));
                        }
                    },
                    None => {},
                }
            }
        };
    }
    out
}

} // verus!
