use vstd::prelude::*;

verus! {

/// The query is not empty and some tag equals it, ignoring case.
pub open spec fn tag_matches(tags: Seq<Seq<char>>, query: Seq<char>) -> bool {
    query.len() > 0 && exists|j: int| 0 <= j < tags.len() && lower_of(tags[j]) == lower_of(query)
}

/// What `str::to_lowercase` makes of a string.
pub uninterp spec fn lower_of(s: Seq<char>) -> Seq<char>;

/// Relies on str::to_lowercase: the lowercase form of a string depends on its
/// characters alone.
#[verifier::external_body]
pub(crate) fn lowercase(s: &str) -> (r: String)
    ensures
        r@ == lower_of(s@),
{
    s.to_lowercase()
}

/// Whether one of the already case-folded tags equals the case-folded query.
pub fn matches_folded(folded_tags: &Vec<String>, folded_query: &str) -> (r: bool)
    ensures
        r == exists|j: int| 0 <= j < folded_tags@.len() && folded_tags@[j]@ == folded_query@,
{
    let q = folded_query.to_owned();
    let mut i: usize = 0;
    while i < folded_tags.len()
        invariant
            i <= folded_tags.len(),
            q@ == folded_query@,
            forall|j: int| 0 <= j < i ==> folded_tags@[j]@ != folded_query@,
        decreases folded_tags.len() - i,
    {
        if folded_tags[i] == q {
            return true;
        }
        i += 1;
    }
    false
}

/// Whether some tag equals the query, ignoring case: the tag and the query are
/// both lowercased and then compared exactly (no substring match). An empty
/// query matches nothing.
pub fn tag_list_matches(tags: &Vec<String>, query: &str) -> (r: bool)
    ensures
        r == tag_matches(strings_of(tags@), query@),
{
    if query.is_empty() {
        return false;
    }
    let q = lowercase(query);
    let mut folded: Vec<String> = Vec::new();
    let mut i: usize = 0;
    while i < tags.len()
        invariant
            i <= tags.len(),
            folded@.len() == i,
            forall|j: int| 0 <= j < i ==> folded@[j]@ == lower_of(tags@[j]@),
        decreases tags.len() - i,
    {
        folded.push(lowercase(tags[i].as_str()));
        i += 1;
    }
    let r = matches_folded(&folded, q.as_str());
    proof {
        if r {
            let j = choose|j: int| 0 <= j < folded@.len() && folded@[j]@ == q@;
            assert(lower_of(strings_of(tags@)[j]) == lower_of(query@));
        }
        if tag_matches(strings_of(tags@), query@) {
            let j = choose|j: int| 0 <= j < tags@.len() && lower_of(strings_of(tags@)[j]) == lower_of(query@);
            assert(folded@[j]@ == q@);
        }
    }
    r
}

/// The pieces of `s` between commas, in order: a string without a comma is
/// one piece, and each comma starts a new one.
pub open spec fn comma_fields(s: Seq<char>) -> Seq<Seq<char>>
    decreases s.len(),
{
    if s.len() == 0 {
        seq![s]
    } else {
        let rest = comma_fields(s.drop_first());
        if s[0] == ',' {
            seq![Seq::<char>::empty()] + rest
        } else {
            rest.update(0, seq![s[0]] + rest[0])
        }
    }
}

/// What `str::trim` makes of a string.
pub uninterp spec fn trimmed(s: Seq<char>) -> Seq<char>;

/// The non-empty strings of a list, in order.
pub open spec fn nonempty_of(v: Seq<Seq<char>>) -> Seq<Seq<char>>
    decreases v.len(),
{
    if v.len() == 0 {
        v
    } else if v.last().len() == 0 {
        nonempty_of(v.drop_last())
    } else {
        nonempty_of(v.drop_last()).push(v.last())
    }
}

/// The string value of an optional string.
pub open spec fn opt_text(o: Option<String>) -> Option<Seq<char>> {
    match o {
        Some(s) => Some(s@),
        None => None,
    }
}

/// The string values of a list of strings.
pub open spec fn strings_of(v: Seq<String>) -> Seq<Seq<char>> {
    v.map_values(|s: String| s@)
}

/// The tags written in a comma-separated list: each piece trimmed, empty
/// pieces dropped.
pub open spec fn tags_of(s: Seq<char>) -> Seq<Seq<char>> {
    nonempty_of(comma_fields(s).map_values(|f: Seq<char>| trimmed(f)))
}

/// Relies on str::split with a `char` pattern: the pieces between the commas,
/// as the standard library documents them.
#[verifier::external_body]
fn split_commas(s: &str) -> (r: Vec<String>)
    ensures
        strings_of(r@) == comma_fields(s@),
{
    s.split(',').map(|p| p.to_owned()).collect()
}

/// Relies on str::trim: the string without leading and trailing whitespace.
#[verifier::external_body]
fn trim(s: &str) -> (r: String)
    ensures
        r@ == trimmed(s@),
{
    s.trim().to_owned()
}

/// The non-empty strings of `fields`, in order.
pub fn drop_empty(fields: Vec<String>) -> (r: Vec<String>)
    ensures
        strings_of(r@) == nonempty_of(strings_of(fields@)),
{
    let mut out: Vec<String> = Vec::new();
    let mut rest = fields;
    let ghost all = strings_of(rest@);
    let mut taken: Vec<String> = Vec::new();
    while rest.len() > 0
        invariant
            strings_of(rest@) + strings_of(taken@).reverse() == all,
        decreases rest.len(),
    {
        let f = rest.pop().unwrap();
        let ghost before = taken@;
        taken.push(f);
        proof {
            assert(strings_of(taken@).reverse() =~= seq![f@] + strings_of(before).reverse());
            assert(strings_of(rest@) + strings_of(taken@).reverse() =~= all);
        }
    }
    let n = taken.len();
    let mut i: usize = 0;
    while i < n
        invariant
            n == all.len(),
            i <= n,
            taken@.len() == n - i,
            forall|k: int| 0 <= k < taken@.len() ==> (#[trigger] taken@[k])@ == all[n - 1 - k],
            strings_of(out@) == nonempty_of(all.subrange(0, i as int)),
        decreases n - i,
    {
        let f = taken.pop().unwrap();
        proof {
            assert(f@ == all[i as int]);
            assert(all.subrange(0, i + 1).drop_last() =~= all.subrange(0, i as int));
        }
        if !f.as_str().is_empty() {
            let ghost before = out@;
            out.push(f);
            proof {
                assert(strings_of(out@) =~= strings_of(before).push(f@));
            }
        } else {
            assert(f@.len() == 0);
        }
        i += 1;
    }
    proof {
        assert(all.subrange(0, n as int) =~= all);
    }
    out
}

/// The tags written in a comma-separated list: each piece trimmed, empty
/// pieces dropped.
pub fn parse_tags(tags_str: &str) -> (r: Vec<String>)
    ensures
        strings_of(r@) == tags_of(tags_str@),
{
    let fields = split_commas(tags_str);
    let mut trimmed_fields: Vec<String> = Vec::new();
    let mut i: usize = 0;
    while i < fields.len()
        invariant
            i <= fields.len(),
            trimmed_fields@.len() == i,
            forall|k: int| 0 <= k < i ==> (#[trigger] trimmed_fields@[k])@ == trimmed(fields@[k]@),
        decreases fields.len() - i,
    {
        trimmed_fields.push(trim(fields[i].as_str()));
        i += 1;
    }
    proof {
        assert(strings_of(trimmed_fields@) =~= comma_fields(tags_str@).map_values(|f: Seq<char>| trimmed(f))) by {
            assert(strings_of(fields@).len() == fields@.len());
        }
    }
    drop_empty(trimmed_fields)
}

} // verus!
