//! Configuration matrix builder: decides, from an optional focus-feature
//! list and the manifest's declared feature groups, the ordered,
//! deduplicated list of build configurations to probe.

use vstd::prelude::*;

use crate::text::clone_string_vec;
use crate::text::contains_string;
use crate::text::join_strings;
use crate::text::join_text;
use crate::text::seq_leq;
use crate::text::sort_strings;
use crate::text::str_eq;
use crate::text::string_views;

verus! {

/// The canonical key of a flag list: the flags sorted, joined by blanks.
/// Two configurations are the same configuration exactly when their keys
/// are equal.
pub open spec fn canonical_key(flags: Seq<Seq<char>>) -> Seq<char> {
    join_text(flags.sort_by(seq_leq()), " "@)
}

/// Computes the canonical key of a flag list.
pub fn canonical_key_of(flags: &Vec<String>) -> (r: String)
    ensures
        r@ == canonical_key(string_views(flags@)),
{
    let sorted = sort_strings(flags);
    join_strings(&sorted, " ")
}

/// The display descriptor of a flag list: the flags joined by blanks, or
/// a fixed phrase for the flag-free default build.
pub open spec fn descriptor_of(flags: Seq<Seq<char>>) -> Seq<char> {
    if flags.len() == 0 {
        "default features"@
    } else {
        join_text(flags, " "@)
    }
}

/// Computes the display descriptor of a flag list.
pub fn descriptor_of_flags(flags: &Vec<String>) -> (r: String)
    ensures
        r@ == descriptor_of(string_views(flags@)),
{
    if flags.len() == 0 {
        proof {
            assert(string_views(flags@) =~= Seq::<Seq<char>>::empty());
        }
        String::from_str("default features")
    } else {
        join_strings(flags, " ")
    }
}

/// One build configuration: the flag tokens handed to the build
/// collaborator, and the human-readable descriptor used in reports.
pub struct Configuration {
    pub flags: Vec<String>,
    pub descriptor: String,
}

/// The mathematical image of a configuration.
pub struct ConfigurationModel {
    pub flags: Seq<Seq<char>>,
    pub descriptor: Seq<char>,
}

impl View for Configuration {
    type V = ConfigurationModel;

    open spec fn view(&self) -> ConfigurationModel {
        ConfigurationModel {
            flags: string_views(self.flags@),
            descriptor: self.descriptor@,
        }
    }
}

/// The flag lists of targeted mode, before deduplication: an empty focus
/// list asks for the default features alone; a non-empty one for the focus
/// features, the focus features without defaults, and the default baseline.
pub open spec fn targeted_raw(focus: Seq<Seq<char>>) -> Seq<Seq<Seq<char>>> {
    if focus.len() == 0 {
        seq![Seq::<Seq<char>>::empty()]
    } else {
        seq![
            seq!["--features"@, join_text(focus, ","@)],
            seq!["--no-default-features"@, "--features"@, join_text(focus, ","@)],
            Seq::<Seq<char>>::empty(),
        ]
    }
}

/// One flag list per declared feature group, in declaration order, skipping
/// the implicit default group.
pub open spec fn per_group_raw(groups: Seq<Seq<char>>) -> Seq<Seq<Seq<char>>>
    decreases groups.len(),
{
    if groups.len() == 0 {
        Seq::empty()
    } else {
        (if groups[0] == "default"@ {
            Seq::<Seq<Seq<char>>>::empty()
        } else {
            seq![seq!["--no-default-features"@, "--features"@, groups[0]]]
        }) + per_group_raw(groups.drop_first())
    }
}

/// The flag lists of comprehensive mode, before deduplication: the default
/// baseline always; when the manifest declares feature groups, also the
/// bare no-defaults build, one single-feature build per declared group, and
/// the all-features build. A missing or unparsable manifest (`None`)
/// degrades to the baseline alone.
pub open spec fn comprehensive_raw(groups: Option<Seq<Seq<char>>>) -> Seq<Seq<Seq<char>>> {
    match groups {
        Option::None => seq![Seq::<Seq<char>>::empty()],
        Option::Some(gs) => if gs.len() == 0 {
            seq![Seq::<Seq<char>>::empty()]
        } else {
            seq![Seq::<Seq<char>>::empty(), seq!["--no-default-features"@]] + per_group_raw(gs)
                + seq![seq!["--all-features"@]]
        },
    }
}

/// Keeps the first flag list of every canonical key, in order.
pub open spec fn dedup_rec(sets: Seq<Seq<Seq<char>>>, seen: Set<Seq<char>>) -> Seq<
    Seq<Seq<char>>,
>
    decreases sets.len(),
{
    if sets.len() == 0 {
        Seq::empty()
    } else if seen.contains(canonical_key(sets[0])) {
        dedup_rec(sets.drop_first(), seen)
    } else {
        seq![sets[0]] + dedup_rec(sets.drop_first(), seen.insert(canonical_key(sets[0])))
    }
}

pub open spec fn dedup_by_key(sets: Seq<Seq<Seq<char>>>) -> Seq<Seq<Seq<char>>> {
    dedup_rec(sets, Set::empty())
}

/// The full matrix: the mode's raw flag lists, deduplicated by canonical
/// key with first-seen order kept, each with its display descriptor.
pub open spec fn matrix_spec(
    focus: Option<Seq<Seq<char>>>,
    groups: Option<Seq<Seq<char>>>,
) -> Seq<ConfigurationModel> {
    let raw = match focus {
        Option::Some(f) => targeted_raw(f),
        Option::None => comprehensive_raw(groups),
    };
    dedup_by_key(raw).map_values(
        |fl: Seq<Seq<char>>| ConfigurationModel { flags: fl, descriptor: descriptor_of(fl) },
    )
}

/// No two flag lists kept by `dedup_rec` share a canonical key, and no kept
/// key lies in `seen`.
pub proof fn lemma_dedup_rec_unique(sets: Seq<Seq<Seq<char>>>, seen: Set<Seq<char>>)
    ensures
        forall|i: int|
            0 <= i < dedup_rec(sets, seen).len() ==> !seen.contains(
                canonical_key(#[trigger] dedup_rec(sets, seen)[i]),
            ),
        forall|i: int, j: int|
            0 <= i < j < dedup_rec(sets, seen).len() ==> canonical_key(
                #[trigger] dedup_rec(sets, seen)[i],
            ) != canonical_key(#[trigger] dedup_rec(sets, seen)[j]),
    decreases sets.len(),
{
    if sets.len() == 0 {
    } else if seen.contains(canonical_key(sets[0])) {
        lemma_dedup_rec_unique(sets.drop_first(), seen);
        assert(dedup_rec(sets, seen) == dedup_rec(sets.drop_first(), seen));
        let d = dedup_rec(sets, seen);
        let rest = dedup_rec(sets.drop_first(), seen);
        assert forall|i: int| 0 <= i < d.len() implies !seen.contains(
            canonical_key(#[trigger] d[i]),
        ) by {
            assert(d[i] == rest[i]);
        }
        assert forall|i: int, j: int| 0 <= i < j < d.len() implies canonical_key(#[trigger] d[i])
            != canonical_key(#[trigger] d[j]) by {
            assert(d[i] == rest[i]);
            assert(d[j] == rest[j]);
        }
    } else {
        let seen2 = seen.insert(canonical_key(sets[0]));
        lemma_dedup_rec_unique(sets.drop_first(), seen2);
        let d = dedup_rec(sets, seen);
        let rest = dedup_rec(sets.drop_first(), seen2);
        assert forall|i: int| 0 <= i < d.len() implies !seen.contains(
            canonical_key(#[trigger] d[i]),
        ) by {
            if i > 0 {
                assert(d[i] == rest[i - 1]);
                assert(!seen2.contains(canonical_key(rest[i - 1])));
            }
        }
        assert forall|i: int, j: int| 0 <= i < j < d.len() implies canonical_key(#[trigger] d[i])
            != canonical_key(#[trigger] d[j]) by {
            if i == 0 {
                assert(d[j] == rest[j - 1]);
                assert(!seen2.contains(canonical_key(rest[j - 1])));
            } else {
                assert(d[i] == rest[i - 1]);
                assert(d[j] == rest[j - 1]);
            }
        }
    }
}

/// No two configurations of the matrix share a canonical key.
pub proof fn lemma_matrix_keys_unique(
    focus: Option<Seq<Seq<char>>>,
    groups: Option<Seq<Seq<char>>>,
)
    ensures
        forall|i: int, j: int|
            0 <= i < j < matrix_spec(focus, groups).len() ==> canonical_key(
                #[trigger] matrix_spec(focus, groups)[i].flags,
            ) != canonical_key(#[trigger] matrix_spec(focus, groups)[j].flags),
{
    let raw = match focus {
        Option::Some(f) => targeted_raw(f),
        Option::None => comprehensive_raw(groups),
    };
    lemma_dedup_rec_unique(raw, Set::empty());
}

/// The matrix is a function of the focus list and the manifest's groups
/// alone: two runs over the same inputs give models equal outright, so in
/// particular equal under canonical-key comparison.
pub proof fn lemma_matrix_builder_deterministic(
    m1: Seq<ConfigurationModel>,
    m2: Seq<ConfigurationModel>,
    focus: Option<Seq<Seq<char>>>,
    groups: Option<Seq<Seq<char>>>,
)
    requires
        m1 == matrix_spec(focus, groups),
        m2 == matrix_spec(focus, groups),
    ensures
        m1 == m2,
        m1.len() == m2.len(),
        forall|i: int|
            0 <= i < m1.len() ==> canonical_key(#[trigger] m1[i].flags) == canonical_key(
                m2[i].flags,
            ),
{
}

/// The flag lists of a sequence of flag vectors.
pub open spec fn flag_list_views(v: Seq<Vec<String>>) -> Seq<Seq<Seq<char>>> {
    v.map_values(|fl: Vec<String>| string_views(fl@))
}

pub proof fn lemma_per_group_push(groups: Seq<Seq<char>>, g: Seq<char>)
    ensures
        per_group_raw(groups.push(g)) == per_group_raw(groups) + (if g == "default"@ {
            Seq::<Seq<Seq<char>>>::empty()
        } else {
            seq![seq!["--no-default-features"@, "--features"@, g]]
        }),
    decreases groups.len(),
{
    let head: Seq<Seq<Seq<char>>> = if groups.len() == 0 {
        Seq::empty()
    } else if groups[0] == "default"@ {
        Seq::empty()
    } else {
        seq![seq!["--no-default-features"@, "--features"@, groups[0]]]
    };
    let tail: Seq<Seq<Seq<char>>> = if g == "default"@ {
        Seq::empty()
    } else {
        seq![seq!["--no-default-features"@, "--features"@, g]]
    };
    if groups.len() == 0 {
        assert(groups.push(g)[0] == g);
        assert(groups.push(g).drop_first() =~= Seq::<Seq<char>>::empty());
        assert(per_group_raw(groups.push(g)) == tail + per_group_raw(
            Seq::<Seq<char>>::empty(),
        ));
        assert(per_group_raw(Seq::<Seq<char>>::empty()) == Seq::<Seq<Seq<char>>>::empty());
        assert(per_group_raw(groups) == Seq::<Seq<Seq<char>>>::empty());
        assert(tail + Seq::<Seq<Seq<char>>>::empty() =~= Seq::<Seq<Seq<char>>>::empty() + tail);
        assert(per_group_raw(groups.push(g)) =~= per_group_raw(groups) + tail);
    } else {
        lemma_per_group_push(groups.drop_first(), g);
        assert(groups.push(g).drop_first() =~= groups.drop_first().push(g));
        assert(groups.push(g)[0] == groups[0]);
        assert(per_group_raw(groups.push(g)) == head + (per_group_raw(groups.drop_first())
            + tail));
        assert(head + (per_group_raw(groups.drop_first()) + tail) =~= (head + per_group_raw(
            groups.drop_first(),
        )) + tail);
    }
}

/// Deduplicates flag lists by canonical key, keeping first occurrences.
fn dedup_flag_lists(raw: &Vec<Vec<String>>) -> (r: Vec<Vec<String>>)
    ensures
        flag_list_views(r@) == dedup_by_key(flag_list_views(raw@)),
{
    let ghost all = flag_list_views(raw@);
    let mut out: Vec<Vec<String>> = Vec::new();
    let mut keys: Vec<String> = Vec::new();
    let ghost mut seen = Set::<Seq<char>>::empty();
    let mut i: usize = 0;
    proof {
        assert(all.skip(0) =~= all);
        assert(flag_list_views(out@) =~= Seq::<Seq<Seq<char>>>::empty());
        assert(seen =~= string_views(keys@).to_set());
    }
    while i < raw.len()
        invariant
            0 <= i <= raw@.len(),
            all == flag_list_views(raw@),
            seen == string_views(keys@).to_set(),
            dedup_by_key(all) == flag_list_views(out@) + dedup_rec(all.skip(i as int), seen),
        decreases raw@.len() - i,
    {
        let key = canonical_key_of(&raw[i]);
        let found = contains_string(&keys, key.as_str());
        proof {
            assert(all.skip(i as int)[0] == all[i as int]);
            assert(all[i as int] == string_views(raw@[i as int]@));
            assert(canonical_key(all.skip(i as int)[0]) == key@);
            assert(all.skip(i as int).drop_first() =~= all.skip(i + 1));
            assert(found == seen.contains(key@));
        }
        if !found {
            let entry = clone_string_vec(&raw[i]);
            let ghost old_out = out@;
            let ghost old_keys = keys@;
            let ghost old_seen = seen;
            out.push(entry);
            keys.push(key);
            proof {
                seen = string_views(keys@).to_set();
                assert(keys@.drop_last() =~= old_keys);
                assert(string_views(keys@) =~= string_views(old_keys).push(key@));
                assert forall|a: Seq<char>| seen.contains(a) <==> (old_seen.contains(a) || a
                    == key@) by {
                    if string_views(keys@).contains(a) {
                        let w = choose|w: int|
                            0 <= w < string_views(keys@).len() && string_views(keys@)[w] == a;
                        if w < string_views(keys@).len() - 1 {
                            assert(string_views(old_keys)[w] == a);
                        }
                    }
                    if old_seen.contains(a) {
                        let w = choose|w: int|
                            0 <= w < string_views(old_keys).len() && string_views(old_keys)[w]
                                == a;
                        assert(string_views(keys@)[w] == a);
                    }
                    if a == key@ {
                        assert(string_views(keys@)[string_views(keys@).len() - 1] == a);
                    }
                }
                assert(seen =~= old_seen.insert(key@));
                assert(flag_list_views(out@) =~= flag_list_views(old_out).push(
                    string_views(raw@[i as int]@),
                ));
                assert(dedup_rec(all.skip(i as int), old_seen) == seq![all[i as int]] + dedup_rec(
                    all.skip(i + 1),
                    seen,
                ));
                assert(flag_list_views(old_out) + (seq![all[i as int]] + dedup_rec(
                    all.skip(i + 1),
                    seen,
                )) =~= flag_list_views(out@) + dedup_rec(all.skip(i + 1), seen));
            }
        }
        i = i + 1;
    }
    proof {
        assert(all.skip(raw@.len() as int) =~= Seq::<Seq<Seq<char>>>::empty());
        assert(flag_list_views(out@) + dedup_rec(all.skip(raw@.len() as int), seen)
            =~= flag_list_views(out@));
    }
    out
}

/// Builds the configuration matrix. A supplied focus list (even an empty
/// one) selects targeted mode; its absence selects comprehensive mode,
/// with `groups` the manifest's declared feature groups in declaration
/// order, or absent when the manifest is missing or unparsable.
pub fn build_matrix(focus: Option<&Vec<String>>, groups: Option<&Vec<String>>) -> (r: Vec<
    Configuration,
>)
    ensures
        r@.map_values(|c: Configuration| c@) == matrix_spec(
            match focus {
                Option::Some(f) => Option::Some(string_views(f@)),
                Option::None => Option::None,
            },
            match groups {
                Option::Some(g) => Option::Some(string_views(g@)),
                Option::None => Option::None,
            },
        ),
{
    let ghost focus_v: Option<Seq<Seq<char>>> = match focus {
        Option::Some(f) => Option::Some(string_views(f@)),
        Option::None => Option::None,
    };
    let ghost groups_v: Option<Seq<Seq<char>>> = match groups {
        Option::Some(g) => Option::Some(string_views(g@)),
        Option::None => Option::None,
    };
    let mut raw: Vec<Vec<String>> = Vec::new();
    match focus {
        Option::Some(targets) => {
            if targets.len() == 0 {
                raw.push(Vec::new());
                proof {
                    assert(string_views(raw@[0]@) =~= Seq::<Seq<char>>::empty());
                    assert(flag_list_views(raw@) =~= targeted_raw(focus_v.unwrap()));
                }
            } else {
                let joined = join_strings(targets, ",");
                let mut with_focus: Vec<String> = Vec::new();
                with_focus.push(String::from_str("--features"));
                with_focus.push(joined.clone());
                let mut no_default_focus: Vec<String> = Vec::new();
                no_default_focus.push(String::from_str("--no-default-features"));
                no_default_focus.push(String::from_str("--features"));
                no_default_focus.push(joined);
                raw.push(with_focus);
                raw.push(no_default_focus);
                raw.push(Vec::new());
                proof {
                    assert(string_views(raw@[0]@) =~= seq![
                        "--features"@,
                        join_text(focus_v.unwrap(), ","@),
                    ]);
                    assert(string_views(raw@[1]@) =~= seq![
                        "--no-default-features"@,
                        "--features"@,
                        join_text(focus_v.unwrap(), ","@),
                    ]);
                    assert(string_views(raw@[2]@) =~= Seq::<Seq<char>>::empty());
                    assert(flag_list_views(raw@) =~= targeted_raw(focus_v.unwrap()));
                }
            }
        },
        Option::None => {
            raw.push(Vec::new());
            proof {
                assert(string_views(raw@[0]@) =~= Seq::<Seq<char>>::empty());
            }
            match groups {
                Option::None => {
                    proof {
                        assert(flag_list_views(raw@) =~= comprehensive_raw(groups_v));
                    }
                },
                Option::Some(gs) => {
                    if gs.len() == 0 {
                        proof {
                            assert(flag_list_views(raw@) =~= comprehensive_raw(groups_v));
                        }
                    } else {
                        let mut no_default: Vec<String> = Vec::new();
                        no_default.push(String::from_str("--no-default-features"));
                        raw.push(no_default);
                        let ghost gvs = string_views(gs@);
                        let ghost prefix = seq![
                            Seq::<Seq<char>>::empty(),
                            seq!["--no-default-features"@],
                        ];
                        proof {
                            assert(string_views(raw@[1]@) =~= seq!["--no-default-features"@]);
                            assert(gvs.subrange(0, 0) =~= Seq::<Seq<char>>::empty());
                            assert(flag_list_views(raw@) =~= prefix + per_group_raw(
                                gvs.subrange(0, 0),
                            ));
                        }
                        let mut gi: usize = 0;
                        while gi < gs.len()
                            invariant
                                0 <= gi <= gs@.len(),
                                gvs == string_views(gs@),
                                prefix == seq![
                                    Seq::<Seq<char>>::empty(),
                                    seq!["--no-default-features"@],
                                ],
                                flag_list_views(raw@) == prefix + per_group_raw(
                                    gvs.subrange(0, gi as int),
                                ),
                            decreases gs@.len() - gi,
                        {
                            let ghost old_raw = raw@;
                            if !str_eq(gs[gi].as_str(), "default") {
                                let mut one: Vec<String> = Vec::new();
                                one.push(String::from_str("--no-default-features"));
                                one.push(String::from_str("--features"));
                                one.push(gs[gi].clone());
                                raw.push(one);
                                proof {
                                    assert(string_views(raw@[raw@.len() - 1]@) =~= seq![
                                        "--no-default-features"@,
                                        "--features"@,
                                        gvs[gi as int],
                                    ]);
                                    assert(flag_list_views(raw@) =~= flag_list_views(
                                        old_raw,
                                    ).push(string_views(raw@[raw@.len() - 1]@)));
                                }
                            }
                            proof {
                                lemma_per_group_push(gvs.subrange(0, gi as int), gvs[gi as int]);
                                assert(gvs.subrange(0, gi + 1) =~= gvs.subrange(
                                    0,
                                    gi as int,
                                ).push(gvs[gi as int]));
                                if gvs[gi as int] == "default"@ {
                                    assert(per_group_raw(gvs.subrange(0, gi + 1))
                                        =~= per_group_raw(gvs.subrange(0, gi as int)));
                                    assert(flag_list_views(raw@) =~= prefix + per_group_raw(
                                        gvs.subrange(0, gi + 1),
                                    ));
                                } else {
                                    assert(flag_list_views(raw@) =~= prefix + per_group_raw(
                                        gvs.subrange(0, gi + 1),
                                    ));
                                }
                            }
                            gi = gi + 1;
                        }
                        let mut all_features: Vec<String> = Vec::new();
                        all_features.push(String::from_str("--all-features"));
                        let ghost before_all = raw@;
                        raw.push(all_features);
                        proof {
                            assert(gvs.subrange(0, gs@.len() as int) =~= gvs);
                            assert(string_views(raw@[raw@.len() - 1]@) =~= seq![
                                "--all-features"@,
                            ]);
                            assert(flag_list_views(raw@) =~= flag_list_views(before_all).push(
                                seq!["--all-features"@],
                            ));
                            assert(flag_list_views(raw@) =~= (prefix + per_group_raw(gvs))
                                + seq![seq!["--all-features"@]]);
                            assert(flag_list_views(raw@) =~= comprehensive_raw(groups_v));
                        }
                    }
                },
            }
        },
    }
    let deduped = dedup_flag_lists(&raw);
    let mut out: Vec<Configuration> = Vec::new();
    let ghost dvs = flag_list_views(deduped@);
    let mut di: usize = 0;
    while di < deduped.len()
        invariant
            0 <= di <= deduped@.len(),
            dvs == flag_list_views(deduped@),
            out@.len() == di,
            forall|k: int|
                0 <= k < di ==> (#[trigger] out@[k])@ == (ConfigurationModel {
                    flags: dvs[k],
                    descriptor: descriptor_of(dvs[k]),
                }),
        decreases deduped@.len() - di,
    {
        let flags = clone_string_vec(&deduped[di]);
        let descriptor = descriptor_of_flags(&flags);
        out.push(Configuration { flags, descriptor });
        di = di + 1;
    }
    proof {
        assert forall|k: int| 0 <= k < out@.len() implies (#[trigger] out@[k])@ == matrix_spec(
            focus_v,
            groups_v,
        )[k] by {
            assert(out@[k]@ == (ConfigurationModel {
                flags: dvs[k],
                descriptor: descriptor_of(dvs[k]),
            }));
        }
        assert(out@.map_values(|c: Configuration| c@) =~= matrix_spec(focus_v, groups_v));
    }
    out
}

} // verus!
