use vstd::prelude::*;

verus! {

/// The stem that a module's default file carries; it adds no segment to the module's name.
pub open spec fn default_stem() -> Seq<char> {
    seq!['d', 'e', 'f', 'a', 'u', 'l', 't']
}

/// The segments joined by the separator `.`.
pub open spec fn join_dotted_spec(segs: Seq<Seq<char>>) -> Seq<char>
    decreases segs.len(),
{
    if segs.len() == 0 {
        seq![]
    } else if segs.len() == 1 {
        segs[0]
    } else {
        join_dotted_spec(segs.drop_last()) + seq!['.'] + segs.last()
    }
}

/// The stems of a path that name a module: all but the default stem.
pub open spec fn kept_stems(stems: Seq<Seq<char>>) -> Seq<Seq<char>> {
    stems.filter(|s: Seq<char>| s != default_stem())
}

pub open spec fn strings_view(v: Seq<String>) -> Seq<Seq<char>> {
    v.map_values(|s: String| s@)
}

pub(crate) proof fn lemma_filter_step<A>(es: Seq<A>, pred: spec_fn(A) -> bool, k: int)
    requires
        0 <= k < es.len(),
    ensures
        es.take(k + 1).filter(pred) == if pred(es[k]) {
            es.take(k).filter(pred).push(es[k])
        } else {
            es.take(k).filter(pred)
        },
{
    reveal(Seq::filter);
    assert(es.take(k + 1).drop_last() =~= es.take(k));
}

proof fn lemma_join_push(segs: Seq<Seq<char>>, s: Seq<char>)
    ensures
        join_dotted_spec(segs.push(s)) == if segs.len() == 0 {
            s
        } else {
            join_dotted_spec(segs) + seq!['.'] + s
        },
{
    assert(segs.push(s).drop_last() =~= segs);
}

/// The segments of a dotted name joined by `.`.
pub fn join_dotted(segs: &Vec<String>) -> (r: String)
    ensures
        r@ == join_dotted_spec(strings_view(segs@)),
{
    let ghost sv = strings_view(segs@);
    let mut r = String::new();
    let mut k: usize = 0;
    while k < segs.len()
        invariant
            sv == strings_view(segs@),
            k <= segs@.len(),
            r@ == join_dotted_spec(sv.take(k as int)),
        decreases segs@.len() - k,
    {
        proof {
            lemma_join_push(sv.take(k as int), sv[k as int]);
            assert(sv.take(k + 1) =~= sv.take(k as int).push(sv[k as int]));
            reveal_strlit(".");
        }
        if k > 0 {
            r.append(".");
        }
        r.append(segs[k].as_str());
        k = k + 1;
    }
    assert(sv.take(k as int) =~= sv);
    r
}

/// The dotted name of the module whose file has these stems, directories first: every stem
/// but the default one, joined by `.` (`foo/bar/default` names `foo.bar`).
pub fn module_name(stems: &Vec<String>) -> (r: String)
    ensures
        r@ == join_dotted_spec(kept_stems(strings_view(stems@))),
{
    let ghost sv = strings_view(stems@);
    let ghost pred = |s: Seq<char>| s != default_stem();
    let default = String::from_str("default");
    proof {
        reveal_strlit("default");
        assert(default@ =~= default_stem());
    }
    let mut kept: Vec<String> = Vec::new();
    let mut k: usize = 0;
    while k < stems.len()
        invariant
            sv == strings_view(stems@),
            pred == (|s: Seq<char>| s != default_stem()),
            default@ == default_stem(),
            k <= stems@.len(),
            strings_view(kept@) == sv.take(k as int).filter(pred),
        decreases stems@.len() - k,
    {
        proof {
            lemma_filter_step(sv, pred, k as int);
        }
        if stems[k] != default {
            let ghost before = kept@;
            kept.push(stems[k].clone());
            assert(strings_view(kept@) =~= strings_view(before).push(sv[k as int]));
        }
        k = k + 1;
    }
    assert(sv.take(k as int) =~= sv);
    join_dotted(&kept)
}

} // verus!
