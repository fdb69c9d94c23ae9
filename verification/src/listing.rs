//! What a directory listing contributes to the shortening: the names of its
//! entries.
//!
//! Reading a directory is left to the caller. It hands over what the read
//! gave: the error where the directory could not be read, else one item per
//! entry met, `Some` with the entry's name, or `None` where the entry could not
//! be read or its name is not valid text. Such an entry is passed over: the
//! names only serve to tell siblings apart, and that still works on fewer of
//! them. A directory that could not be read has no names, and its error is
//! handed on.

use vstd::prelude::*;

verus! {

/// The names in `listing`, in the order in which they were listed.
pub open spec fn readable_names(listing: Seq<Option<Seq<char>>>) -> Seq<Seq<char>> {
    listing.filter(|e: Option<Seq<char>>| e is Some).map_values(|e: Option<Seq<char>>| e->0)
}

/// Listing one entry more appends its name, if it has one.
pub proof fn lemma_readable_names_push(listing: Seq<Option<Seq<char>>>, e: Option<Seq<char>>)
    ensures
        readable_names(listing.push(e)) == match e {
            Some(name) => readable_names(listing).push(name),
            None => readable_names(listing),
        },
{
    reveal_with_fuel(Seq::filter, 2);
    assert(listing.push(e).drop_last() =~= listing);
    let kept = listing.filter(|e: Option<Seq<char>>| e is Some);
    let value = |e: Option<Seq<char>>| e->0;
    if e is Some {
        assert(kept.push(e).map_values(value) =~= kept.map_values(value).push(e->0));
    }
}

/// Every name that was listed is kept, and nothing else.
pub proof fn lemma_readable_names_members(listing: Seq<Option<Seq<char>>>, name: Seq<char>)
    ensures
        readable_names(listing).contains(name) <==> listing.contains(Some(name)),
    decreases listing.len(),
{
    if listing.len() == 0 {
        reveal_with_fuel(Seq::filter, 1);
        assert(readable_names(listing) =~= Seq::<Seq<char>>::empty());
    } else {
        let front = listing.drop_last();
        let e = listing.last();
        assert(listing =~= front.push(e));
        lemma_readable_names_push(front, e);
        lemma_readable_names_members(front, name);
        let names = readable_names(listing);
        if names.contains(name) {
            let i = choose|i: int| 0 <= i < names.len() && names[i] == name;
            if e is Some && i == names.len() - 1 {
                assert(listing[listing.len() - 1] == Some(name));
            } else {
                assert(readable_names(front)[i] == name);
                let j = choose|j: int| 0 <= j < front.len() && front[j] == Some(name);
                assert(listing[j] == Some(name));
            }
        }
        if listing.contains(Some(name)) {
            let j = choose|j: int| 0 <= j < listing.len() && listing[j] == Some(name);
            if j == listing.len() - 1 {
                assert(names[names.len() - 1] == name);
            } else {
                assert(front[j] == Some(name));
                let i = choose|i: int|
                    0 <= i < readable_names(front).len() && readable_names(front)[i] == name;
                assert(names[i] == name);
            }
        }
    }
}

/// Returns the names of a directory's entries: those of the listing that are
/// `Some`, in their order. Entries without a name are passed over. Where the
/// directory could not be read, the error of the read is returned as it is.
pub fn dir_entries<E>(read: Result<Vec<Option<String>>, E>) -> (names: Result<Vec<String>, E>)
    ensures
        read is Ok <==> names is Ok,
        read matches Ok(listing) ==> names->Ok_0.deep_view() == readable_names(
            listing.deep_view(),
        ),
        read matches Err(e) ==> names->Err_0 == e,
{
    let listing = match read {
        Ok(listing) => listing,
        Err(e) => {
            return Err(e);
        },
    };
    let ghost all = listing.deep_view();
    let mut names: Vec<String> = Vec::new();
    let mut i: usize = 0;
    proof {
        reveal_with_fuel(Seq::filter, 1);
        assert(all.take(0) =~= Seq::<Option<Seq<char>>>::empty());
        assert(names.deep_view() =~= readable_names(all.take(0)));
    }
    while i < listing.len()
        invariant
            i <= listing.len(),
            all == listing.deep_view(),
            all.len() == listing.len(),
            names.deep_view() == readable_names(all.take(i as int)),
        decreases listing.len() - i,
    {
        let ghost before = names.deep_view();
        proof {
            assert(all.take(i + 1) =~= all.take(i as int).push(all[i as int]));
            lemma_readable_names_push(all.take(i as int), all[i as int]);
        }
        match &listing[i] {
            Some(name) => {
                names.push(name.clone());
                assert(names.deep_view() =~= before.push(name@));
            },
            None => {},
        }
        i += 1;
    }
    proof {
        assert(all.take(i as int) =~= all);
    }
    Ok(names)
}

} // verus!
