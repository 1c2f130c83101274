//! A Merkle-compatible root hash over a byte buffer, computed streaming
//! with a binary carry of partial subtree hashes and no stored tree.

use vstd::prelude::*;

verus! {

/// The digest that the blake3 hash assigns to a byte sequence.
pub uninterp spec fn blake3_of(data: Seq<u8>) -> Seq<u8>;

/// Relies on `blake3::hash`: the digest depends on the input bytes alone
/// and is 32 bytes long.
#[verifier::external_body]
fn blake3_hash(data: &[u8]) -> (r: Vec<u8>)
    ensures
        r@ == blake3_of(data@),
        r@.len() == 32,
{
    blake3::hash(data).as_bytes().to_vec()
}

/// The hash of a leaf chunk.
pub open spec fn spec_leaf_hash(bytes: Seq<u8>) -> Seq<u8> {
    blake3_of(bytes)
}

/// The hash of a parent over two child hashes.
pub open spec fn spec_parent_hash(left: Seq<u8>, right: Seq<u8>) -> Seq<u8> {
    blake3_of(left + right)
}

/// The leaf chunks of a buffer: full `size`-byte runs, the last chunk
/// holding whatever remains.
pub open spec fn chunks_of(data: Seq<u8>, size: nat) -> Seq<Seq<u8>>
    decreases data.len(),
    when size >= 1
{
    if data.len() == 0 {
        Seq::empty()
    } else if data.len() <= size {
        seq![data]
    } else {
        seq![data.take(size as int)] + chunks_of(data.skip(size as int), size)
    }
}

/// Carries a subtree hash into the level array: an empty slot takes it, an
/// occupied slot combines and carries upward. A hash carried past the last
/// level is dropped, as the level array is deep enough never to fill.
pub open spec fn insert_carry(
    levels: Seq<Option<Seq<u8>>>,
    h: Seq<u8>,
    depth: int,
) -> Seq<Option<Seq<u8>>>
    decreases levels.len() - depth,
{
    if depth < 0 || depth >= levels.len() {
        levels
    } else {
        match levels[depth] {
            None => levels.update(depth, Some(h)),
            Some(x) => insert_carry(levels.update(depth, None), spec_parent_hash(x, h), depth + 1),
        }
    }
}

/// Carries the hash of every chunk into the level array, in order.
pub open spec fn carry_all(levels: Seq<Option<Seq<u8>>>, cs: Seq<Seq<u8>>) -> Seq<Option<Seq<u8>>>
    decreases cs.len(),
{
    if cs.len() == 0 {
        levels
    } else {
        carry_all(insert_carry(levels, spec_leaf_hash(cs[0]), 0), cs.drop_first())
    }
}

/// Folds the remaining level hashes, lowest level first, into the root.
pub open spec fn fold_levels(
    levels: Seq<Option<Seq<u8>>>,
    depth: int,
    acc: Option<Seq<u8>>,
) -> Option<Seq<u8>>
    decreases levels.len() - depth,
{
    if depth < 0 || depth >= levels.len() {
        acc
    } else {
        let acc2 = match levels[depth] {
            Some(x) => match acc {
                None => Some(x),
                Some(r) => Some(spec_parent_hash(x, r)),
            },
            None => acc,
        };
        fold_levels(levels, depth + 1, acc2)
    }
}

/// The Merkle-compatible root of a buffer at the given leaf granularity:
/// hash each chunk, combine equal-size subtrees as they pair up, then fold
/// what remains; an empty buffer hashes as one empty leaf.
pub open spec fn spec_merkle_root(data: Seq<u8>, chunk_size: nat) -> Seq<u8> {
    let levels = carry_all(Seq::new(64, |i: int| None::<Seq<u8>>), chunks_of(data, chunk_size));
    match fold_levels(levels, 0, None) {
        Some(r) => r,
        None => spec_leaf_hash(Seq::empty()),
    }
}

/// The level array as exec code sees it.
pub open spec fn levels_view(levels: Seq<Option<Vec<u8>>>) -> Seq<Option<Seq<u8>>> {
    levels.map_values(
        |o: Option<Vec<u8>>|
            match o {
                Some(v) => Some(v@),
                None => None,
            },
    )
}

/// The view of an optional owned hash.
pub open spec fn opt_view(o: Option<Vec<u8>>) -> Option<Seq<u8>> {
    match o {
        Some(v) => Some(v@),
        None => None,
    }
}

/// Computes the Merkle-compatible root hash over `data` with leaves of
/// `chunk_size` bytes, allocating no tree.
#[verifier::loop_isolation(false)]
pub fn merkle_root(data: &Vec<u8>, chunk_size: usize) -> (r: Vec<u8>)
    requires
        chunk_size >= 1,
    ensures
        r@ == spec_merkle_root(data@, chunk_size as nat),
        r@.len() == 32,
{
    let ghost all_chunks = chunks_of(data@, chunk_size as nat);
    let mut levels: Vec<Option<Vec<u8>>> = Vec::new();
    let mut li: usize = 0;
    while li < 64
        invariant
            li <= 64,
            levels.len() == li,
            forall|i: int| 0 <= i < li ==> levels@[i] is None,
        decreases 64 - li,
    {
        levels.push(None);
        li = li + 1;
    }
    proof {
        assert(levels_view(levels@) =~= Seq::new(64, |i: int| None::<Seq<u8>>));
    }
    let mut pos: usize = 0;
    let ghost mut chunks_done: int = 0;
    proof {
        assert(data@.skip(0) =~= data@);
        assert(all_chunks.skip(0) =~= all_chunks);
    }
    while pos < data.len()
        invariant
            pos <= data.len(),
            levels.len() == 64,
            forall|i: int|
                0 <= i < 64 ==> match #[trigger] levels@[i] {
                    Some(v) => v@.len() == 32,
                    None => true,
                },
            0 <= chunks_done <= all_chunks.len(),
            pos == data.len() ==> chunks_done == all_chunks.len(),
            chunks_of(data@.skip(pos as int), chunk_size as nat) =~= all_chunks.skip(chunks_done),
            carry_all(levels_view(levels@), all_chunks.skip(chunks_done)) == carry_all(
                Seq::new(64, |i: int| None::<Seq<u8>>),
                all_chunks,
            ),
        decreases data.len() - pos,
    {
        let remaining = data.len() - pos;
        let take = if remaining < chunk_size {
            remaining
        } else {
            chunk_size
        };
        let chunk = vstd::slice::slice_to_vec(&data.as_slice()[pos..pos + take]);
        proof {
            if remaining > chunk_size {
                assert(data@.skip(pos as int).take(chunk_size as int) =~= chunk@);
            } else {
                assert(data@.skip(pos as int) =~= chunk@);
            }
            assert(all_chunks.skip(chunks_done)[0] =~= chunk@);
            assert(all_chunks.skip(chunks_done).drop_first() =~= all_chunks.skip(chunks_done + 1));
            assert(data@.skip(pos as int).skip(take as int) =~= data@.skip(pos + take));
        }
        let mut h = blake3_hash(chunk.as_slice());
        let mut depth: usize = 0;
        let ghost target = insert_carry(levels_view(levels@), spec_leaf_hash(chunk@), 0);
        while depth < 64 && levels[depth].is_some()
            invariant
                levels.len() == 64,
                depth <= 64,
                h@.len() == 32,
                forall|i: int|
                    0 <= i < 64 ==> match #[trigger] levels@[i] {
                        Some(v) => v@.len() == 32,
                        None => true,
                    },
                insert_carry(levels_view(levels@), h@, depth as int) == target,
            decreases 64 - depth,
        {
            let mut cat: Vec<u8> = match &levels[depth] {
                Some(x) => vstd::slice::slice_to_vec(x.as_slice()),
                None => Vec::new(),
            };
            let ghost before = levels_view(levels@);
            levels.set(depth, None);
            proof {
                assert(levels_view(levels@) =~= before.update(depth as int, None::<Seq<u8>>));
            }
            cat.append(&mut h);
            h = blake3_hash(cat.as_slice());
            depth = depth + 1;
        }
        if depth < 64 {
            let ghost before = levels_view(levels@);
            levels.set(depth, Some(h));
            proof {
                assert(levels_view(levels@) =~= before.update(depth as int, Some(h@)));
            }
        }
        pos = pos + take;
        proof {
            chunks_done = chunks_done + 1;
        }
    }
    proof {
        assert(all_chunks.skip(chunks_done) =~= Seq::<Seq<u8>>::empty());
    }
    // Fold the remaining subtree hashes into the root.
    let ghost final_levels = levels_view(levels@);
    let mut root: Option<Vec<u8>> = None;
    let mut depth: usize = 0;
    while depth < 64
        invariant
            levels.len() == 64,
            depth <= 64,
            levels_view(levels@) == final_levels,
            match root {
                Some(ref v) => v@.len() == 32,
                None => true,
            },
            forall|i: int|
                0 <= i < 64 ==> match #[trigger] levels@[i] {
                    Some(v) => v@.len() == 32,
                    None => true,
                },
            fold_levels(final_levels, depth as int, opt_view(root)) == fold_levels(
                final_levels,
                0,
                None,
            ),
        decreases 64 - depth,
    {
        let combined: Option<Vec<u8>> = match &levels[depth] {
            Some(x) => {
                let xcopy = vstd::slice::slice_to_vec(x.as_slice());
                match root {
                    None => Some(xcopy),
                    Some(rv) => {
                        let mut cat = xcopy;
                        let mut rv = rv;
                        cat.append(&mut rv);
                        Some(blake3_hash(cat.as_slice()))
                    },
                }
            },
            None => root,
        };
        root = combined;
        depth = depth + 1;
    }
    match root {
        Some(r) => r,
        None => blake3_hash(Vec::new().as_slice()),
    }
}

} // verus!
