use vstd::prelude::*;
use vstd::string::*;

verus! {

/// A group label with each path separator `/` replaced by `+`.
pub open spec fn sanitized(s: Seq<char>) -> Seq<char> {
    s.map_values(|c: char| if c == '/' { '+' } else { c })
}

/// Whether `a` occurs in `v`, comparing string contents.
pub open spec fn contains_label(v: Seq<String>, a: Seq<char>) -> bool {
    exists|i: int| 0 <= i < v.len() && #[trigger] v[i]@ == a
}

/// No two entries of `v` hold the same string.
pub open spec fn distinct_labels(v: Seq<String>) -> bool {
    forall|i: int, j: int| 0 <= i < j < v.len() ==> #[trigger] v[i]@ != #[trigger] v[j]@
}

/// Replaces every `/` in a group label by `+`, so that the label cannot
/// leave the directory it names a file in.
pub fn sanitize_label(label: &str) -> (r: String)
    ensures
        r@ == sanitized(label@),
{
    let n = label.unicode_len();
    let mut out = String::new();
    let mut i: usize = 0;
    while i < n
        invariant
            n == label@.len(),
            i <= n,
            out@ == sanitized(label@.take(i as int)),
        decreases n - i,
    {
        let c = label.get_char(i);
        if c == '/' {
            proof {
                reveal_strlit("+");
            }
            out.append("+");
        } else {
            out.append(label.substring_char(i, i + 1));
        }
        assert(out@ =~= sanitized(label@.take(i + 1)));
        i += 1;
    }
    assert(label@.take(n as int) =~= label@);
    out
}

/// The output file name of a group: `prefix`, the sanitized label, `suffix`.
pub fn group_file_name(prefix: &str, label: &str, suffix: &str) -> (r: String)
    ensures
        r@ == prefix@ + sanitized(label@) + suffix@,
{
    let mut name = String::from_str(prefix);
    let clean = sanitize_label(label);
    name.append(clean.as_str());
    name.append(suffix);
    name
}

/// Whether `name` ends in the compressed-file suffix `.gz`.
pub fn is_compressed_name(name: &str) -> (r: bool)
    ensures
        r == (name@.len() >= 3 && name@.subrange(name@.len() - 3, name@.len() as int) == seq![
            '.',
            'g',
            'z',
        ]),
{
    let n = name.unicode_len();
    if n < 3 {
        return false;
    }
    let a = name.get_char(n - 3);
    let b = name.get_char(n - 2);
    let c = name.get_char(n - 1);
    let r = a == '.' && b == 'g' && c == 'z';
    let ghost tail = name@.subrange(n - 3, n as int);
    assert(r ==> tail =~= seq!['.', 'g', 'z']);
    assert(tail =~= seq!['.', 'g', 'z'] ==> tail[0] == '.' && tail[1] == 'g' && tail[2] == 'z');
    r
}

/// Relies on itertools::Itertools::unique: it yields each distinct item of
/// its input once, keeping the first of equal items, in input order.
#[verifier::external_body]
fn unique_labels(v: &Vec<String>) -> (r: Vec<String>)
    ensures
        distinct_labels(r@),
        forall|i: int| 0 <= i < r@.len() ==> contains_label(v@, #[trigger] r@[i]@),
        forall|j: int| 0 <= j < v@.len() ==> contains_label(r@, #[trigger] v@[j]@),
{
    itertools::Itertools::unique(v.iter().cloned()).collect()
}

/// Whether `label` passes the optional selection.
pub open spec fn selected(selections: Option<Seq<String>>, label: Seq<char>) -> bool {
    match selections {
        None => true,
        Some(s) => contains_label(s, label),
    }
}

/// Looks for `label` in `v`.
pub fn find_label(v: &Vec<String>, label: &String) -> (r: Option<usize>)
    ensures
        match r {
            Some(i) => i < v@.len() && v@[i as int]@ == label@,
            None => !contains_label(v@, label@),
        },
{
    let mut i: usize = 0;
    while i < v.len()
        invariant
            i <= v@.len(),
            forall|k: int| 0 <= k < i ==> #[trigger] v@[k]@ != label@,
        decreases v@.len() - i,
    {
        if v[i] == *label {
            return Some(i);
        }
        i += 1;
    }
    None
}

/// The groups that receive output: each distinct label of `group_by` that
/// the selection admits (every label where there is no selection), once.
pub fn active_groups(group_by: &Vec<String>, selections: &Option<Vec<String>>) -> (r: Vec<String>)
    ensures
        distinct_labels(r@),
        forall|a: Seq<char>|
            #[trigger] contains_label(r@, a) <==> contains_label(group_by@, a) && selected(
                match selections {
                    Some(s) => Some(s@),
                    None => None,
                },
                a,
            ),
{
    let ghost sel = match selections {
        Some(s) => Some(s@),
        None => None::<Seq<String>>,
    };
    let all = unique_labels(group_by);
    let mut out: Vec<String> = Vec::new();
    let mut i: usize = 0;
    while i < all.len()
        invariant
            i <= all@.len(),
            distinct_labels(all@),
            sel == match selections {
                Some(s) => Some(s@),
                None => None::<Seq<String>>,
            },
            forall|k: int| 0 <= k < all@.len() ==> contains_label(group_by@, #[trigger] all@[k]@),
            forall|j: int| 0 <= j < group_by@.len() ==> contains_label(all@, #[trigger] group_by@[j]@),
            distinct_labels(out@),
            forall|k: int| #![trigger out@[k]] 0 <= k < out@.len() ==> exists|m: int| 0 <= m < i && #[trigger] all@[m]@ == out@[k]@,
            forall|a: Seq<char>|
                #[trigger] contains_label(out@, a) <==> (exists|m: int| 0 <= m < i && #[trigger] all@[m]@ == a)
                    && selected(sel, a),
        decreases all@.len() - i,
    {
        let keep = match selections {
            None => true,
            Some(s) => {
                let f = find_label(s, &all[i]);
                proof {
                    if let Some(j) = f {
                        assert(s@[j as int]@ == all@[i as int]@);
                    }
                }
                f.is_some()
            },
        };
        assert(keep == selected(sel, all@[i as int]@));
        if keep {
            let ghost prev = out@;
            out.push(all[i].clone());
            proof {
                assert forall|k: int| 0 <= k < out@.len() - 1 implies #[trigger] out@[k]@ != out@[out@.len() - 1]@ by {
                    assert(prev[k] == out@[k]);
                    let m = choose|m: int| 0 <= m < i && #[trigger] all@[m]@ == prev[k]@;
                }
                assert forall|a: Seq<char>| #[trigger] contains_label(out@, a) <==> (exists|m: int| 0 <= m < i + 1 && #[trigger] all@[m]@ == a) && selected(sel, a) by {
                    if contains_label(out@, a) {
                        let k = choose|k: int| 0 <= k < out@.len() && #[trigger] out@[k]@ == a;
                        if k < prev.len() {
                            assert(prev[k] == out@[k]);
                            assert(contains_label(prev, a));
                        } else {
                            assert(all@[i as int]@ == a);
                            assert(selected(sel, a));
                        }
                    }
                    if (exists|m: int| 0 <= m < i + 1 && #[trigger] all@[m]@ == a) && selected(sel, a) {
                        let m = choose|m: int| 0 <= m < i + 1 && #[trigger] all@[m]@ == a;
                        if m < i {
                            assert(contains_label(prev, a));
                            let k = choose|k: int| 0 <= k < prev.len() && #[trigger] prev[k]@ == a;
                            assert(out@[k] == prev[k]);
                        } else {
                            assert(out@[out@.len() - 1]@ == a);
                        }
                    }
                }
            }
        } else {
            assert forall|a: Seq<char>| #[trigger] contains_label(out@, a) <==> (exists|m: int| 0 <= m < i + 1 && #[trigger] all@[m]@ == a) && selected(sel, a) by {
                if (exists|m: int| 0 <= m < i + 1 && #[trigger] all@[m]@ == a) && selected(sel, a) {
                    let m = choose|m: int| 0 <= m < i + 1 && #[trigger] all@[m]@ == a;
                    if m == i {
                        assert(false);
                    }
                }
            }
        }
        i += 1;
    }
    proof {
        assert forall|a: Seq<char>| #[trigger] contains_label(out@, a) <==> contains_label(group_by@, a) && selected(sel, a) by {
            if contains_label(group_by@, a) {
                let j = choose|j: int| 0 <= j < group_by@.len() && #[trigger] group_by@[j]@ == a;
                assert(contains_label(all@, group_by@[j]@));
            }
            if exists|m: int| 0 <= m < all@.len() && #[trigger] all@[m]@ == a {
                let m = choose|m: int| 0 <= m < all@.len() && #[trigger] all@[m]@ == a;
                assert(contains_label(group_by@, all@[m]@));
            }
        }
    }
    out
}

} // verus!
