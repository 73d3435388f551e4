use vstd::prelude::*;

use crate::model::{find_key, lemma_find_key, FileSeq};

verus! {

/// Creating a fresh file and then writing bytes to it leaves exactly
/// those bytes to read back: the store that `open_smart` followed by
/// `write` describes holds the written content under the new path, and
/// a read returns the content unchanged.
pub proof fn lemma_write_read_round_trip(fs0: FileSeq, p: Seq<char>, data: Seq<u8>)
    requires
        find_key(fs0, p) == -1,
    ensures
        ({
            let created = fs0.push((p, Seq::empty()));
            let k = find_key(created, p);
            let written = created.update(k, (p, Seq::<u8>::empty() + data));
            &&& 0 <= k < created.len()
            &&& find_key(written, p) == k
            &&& written[find_key(written, p)].1 == data
        }),
{
    let created = fs0.push((p, Seq::<u8>::empty()));
    lemma_find_key(fs0, p);
    lemma_find_key(created, p);
    let k = find_key(created, p);
    assert(created[fs0.len() as int].0 == p);
    if k == -1 {
        assert(created[fs0.len() as int].0 != p);
    }
    assert(k == fs0.len()) by {
        if k < fs0.len() {
            assert(created[k].0 == p);
            assert(fs0[k] == created[k]);
        }
    }
    let written = created.update(k, (p, Seq::<u8>::empty() + data));
    lemma_find_key(written, p);
    let k2 = find_key(written, p);
    assert(written[k].0 == p);
    if k2 == -1 {
        assert(written[k].0 != p);
    }
    assert(k2 == k) by {
        if k2 < k {
            assert(written[k2].0 == p);
            assert(written[k2] == created[k2]);
            assert(created[k2].0 != p);
        }
        if k2 > k {
            assert(written[k].0 != p);
        }
    }
    assert(written[k].1 =~= data);
}

} // verus!
