//! The interface-name resolver's parsing half: turns the startup helper's
//! JSON listing of `{name, ipv4}` objects into the address-to-name index.
//! Entries missing either field are skipped; a listing that is not a JSON
//! array yields the empty index, the degraded-start state.

use vstd::prelude::*;

use crate::json::{decode_listing, listing_fields_of, pairs_chars};
use crate::supervisor::{index_wf, upsert_spec, EntryModel, NameIndex};

verus! {

/// The index entry one listing item contributes: present exactly when the
/// item carries both a name and an address.
pub open spec fn entry_of_pair(p: (Option<Seq<char>>, Option<Seq<char>>)) -> Option<EntryModel> {
    match p {
        (Some(n), Some(a)) => Some(EntryModel { addr: a, name: n }),
        _ => None,
    }
}

/// The index a sequence of listing items builds: each complete item binds
/// its address to its name, later items overriding earlier ones.
pub open spec fn index_of_pairs(ps: Seq<(Option<Seq<char>>, Option<Seq<char>>)>) -> Seq<EntryModel>
    decreases ps.len(),
{
    if ps.len() == 0 {
        Seq::empty()
    } else {
        let rest = index_of_pairs(ps.drop_last());
        match entry_of_pair(ps.last()) {
            Some(e) => upsert_spec(rest, e.addr, e.name),
            None => rest,
        }
    }
}

/// The index a whole listing text resolves to: empty when the text is not
/// a JSON array, else built from its items' named fields.
pub open spec fn listing_index_spec(s: Seq<char>) -> Seq<EntryModel> {
    match listing_fields_of(s) {
        Some(ps) => index_of_pairs(ps),
        None => Seq::empty(),
    }
}

/// The bounded retry policy of startup resolution: a failed or empty
/// listing is retried while fewer than five retries have run; afterwards
/// the system proceeds with whatever it has, degraded but alive.
pub fn should_retry_resolution(retries_done: u64, resolved: usize) -> (r: bool)
    ensures
        r == (resolved == 0 && retries_done < 5),
{
    resolved == 0 && retries_done < 5
}

/// Decodes the helper's listing: the resulting index binds exactly the
/// `ipv4` to `name` pairs of the items carrying both fields, later items
/// overriding earlier ones, and binds nothing when the text is not a JSON
/// array.
pub fn parse_interface_map(text: &str) -> (r: NameIndex)
    ensures
        r@ == listing_index_spec(text@),
        index_wf(r@),
{
    let mut index = NameIndex::new();
    match decode_listing(text) {
        None => index,
        Some(items) => {
            let ghost ps: Seq<(Option<Seq<char>>, Option<Seq<char>>)> = pairs_chars(items@);
            let mut rest = items;
            proof {
                assert(pairs_chars(rest@) =~= ps.skip(0));
                assert(ps.take(0) =~= Seq::<(Option<Seq<char>>, Option<Seq<char>>)>::empty());
            }
            while rest.len() > 0
                invariant
                    rest@.len() <= ps.len(),
                    pairs_chars(rest@) =~= ps.skip(ps.len() - rest@.len()),
                    index@ == index_of_pairs(ps.take(ps.len() - rest@.len())),
                    index_wf(index@),
                decreases rest@.len(),
            {
                let ghost k = ps.len() - rest@.len();
                let ghost rest0 = rest@;
                let p = rest.remove(0);
                proof {
                    assert(pairs_chars(rest0)[0] == ps[k]);
                    assert forall|i: int| 0 <= i < pairs_chars(rest@).len() implies pairs_chars(
                        rest@,
                    )[i] == ps.skip(k + 1)[i] by {
                        assert(rest@[i] == rest0[i + 1]);
                        assert(pairs_chars(rest0)[i + 1] == ps.skip(k)[i + 1]);
                    }
                    assert(pairs_chars(rest@) =~= ps.skip(k + 1));
                    assert(ps.take(k + 1).drop_last() =~= ps.take(k));
                    assert(ps.take(k + 1).last() == ps[k]);
                }
                match p {
                    (Some(nm), Some(ip)) => {
                        proof {
                            assert(entry_of_pair(ps[k]) == Some(
                                EntryModel { addr: ip@, name: nm@ },
                            ));
                        }
                        index.insert(ip, nm);
                    },
                    _ => {
                        proof {
                            assert(entry_of_pair(ps[k]) is None);
                        }
                    },
                }
                proof {
                    assert(index@ == index_of_pairs(ps.take(k + 1)));
                }
            }
            proof {
                assert(ps.take(ps.len() as int) =~= ps);
            }
            index
        },
    }
}

} // verus!
