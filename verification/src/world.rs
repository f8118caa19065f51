//! The chunks of a world, by their place.

use std::collections::HashMap;
use vstd::prelude::*;
use vstd::std_specs::iter::IteratorSpec;
use crate::chunk::Chunk;

verus! {

/// The place of a chunk in the world, counted in chunks.
#[derive(Debug, Clone, Copy, PartialEq, Eq, Hash, Structural)]
pub struct ChunkPos {
    pub x: i32,
    pub z: i32,
}

impl ChunkPos {
    /// The number that stands for the place: each place has its own.
    pub open spec fn key(self) -> u64 {
        ((self.x + 2147483648) * 4294967296 + (self.z + 2147483648)) as u64
    }

    /// The place that the number `key` stands for.
    pub open spec fn of_key(key: u64) -> ChunkPos {
        ChunkPos {
            x: (key as int / 4294967296 - 2147483648) as i32,
            z: (key as int % 4294967296 - 2147483648) as i32,
        }
    }

    /// Places and numbers stand for each other, one for one.
    pub proof fn lemma_key(self, key: u64)
        ensures
            ChunkPos::of_key(self.key()) == self,
            ChunkPos::of_key(key).key() == key,
    {
    }

    /// The number that stands for the place.
    fn to_key(self) -> (key: u64)
        ensures
            key == self.key(),
    {
        ((self.x as i64 + 2147483648) as u64) * 4294967296 + ((self.z as i64 + 2147483648) as u64)
    }

    /// The place that the number stands for.
    fn from_key(key: u64) -> (pos: ChunkPos)
        ensures
            pos == ChunkPos::of_key(key),
    {
        ChunkPos {
            x: ((key / 4294967296) as i64 - 2147483648) as i32,
            z: ((key % 4294967296) as i64 - 2147483648) as i32,
        }
    }
}

/// The chunks of a world.
pub struct World {
    chunks: HashMap<u64, Chunk>,
}

/// `HashMap::get_mut` of std: the value stored for `key`, to be changed, if
/// the map holds one. The map holds afterwards what it held, with the value
/// for `key` as the caller left it.
#[verifier::external_body]
fn map_get_mut(map: &mut HashMap<u64, Chunk>, key: u64) -> (value: Option<&mut Chunk>)
    ensures
        value is Some <==> old(map)@.contains_key(key),
        value is Some ==> *value->0 == old(map)@[key] && final(map)@ == old(map)@.insert(
            key,
            *final(value->0),
        ),
        value is None ==> final(map)@ == old(map)@,
{
    map.get_mut(&key)
}

impl View for World {
    type V = Map<ChunkPos, Chunk>;

    /// The chunk at each place that has one.
    closed spec fn view(&self) -> Map<ChunkPos, Chunk> {
        Map::new(
            |pos: ChunkPos| self.chunks@.contains_key(pos.key()),
            |pos: ChunkPos| self.chunks@[pos.key()],
        )
    }
}

/// A map by numbers holds as many places as numbers.
proof fn lemma_places(map: Map<u64, Chunk>)
    requires
        map.dom().finite(),
    ensures
        Map::new(|pos: ChunkPos| map.contains_key(pos.key()), |pos: ChunkPos| map[pos.key()]).dom().finite(),
        Map::new(|pos: ChunkPos| map.contains_key(pos.key()), |pos: ChunkPos| map[pos.key()]).dom().len()
            == map.dom().len(),
{
    let places = Map::new(
        |pos: ChunkPos| map.contains_key(pos.key()),
        |pos: ChunkPos| map[pos.key()],
    ).dom();
    let back = |key: u64| ChunkPos::of_key(key);
    let there = |pos: ChunkPos| pos.key();
    assert forall|pos: ChunkPos| places.contains(pos) <==> map.dom().map(back).contains(pos) by {
        pos.lemma_key(0);
        if places.contains(pos) {
            assert(map.dom().contains(pos.key()) && back(pos.key()) == pos);
        }
        if map.dom().map(back).contains(pos) {
            let key = choose|key: u64| map.dom().contains(key) && back(key) == pos;
            pos.lemma_key(key);
        }
    }
    assert(places =~= map.dom().map(back));
    map.dom().lemma_map_finite(back);
    assert forall|key: u64| map.dom().contains(key) <==> places.map(there).contains(key) by {
        if map.dom().contains(key) {
            let pos = ChunkPos::of_key(key);
            pos.lemma_key(key);
            assert(places.contains(pos) && there(pos) == key);
        }
    }
    assert(places.map(there) =~= map.dom());
    assert(vstd::relations::injective_on(there, places)) by {
        assert forall|a: ChunkPos, b: ChunkPos|
            places.contains(a) && places.contains(b) && #[trigger] there(a) == #[trigger] there(
                b,
            ) implies a == b by {
            a.lemma_key(0);
            b.lemma_key(0);
        }
    }
    vstd::set_lib::lemma_map_size(places, map.dom(), there);
}

impl World {
    /// A world without chunks.
    pub fn new() -> (world: Self)
        ensures
            world@ == Map::<ChunkPos, Chunk>::empty(),
    {
        let world = World { chunks: HashMap::new() };
        assert(world@ =~= Map::<ChunkPos, Chunk>::empty());
        world
    }

    /// Whether the world has no chunk.
    pub fn is_empty(&self) -> (b: bool)
        ensures
            b <==> self@ == Map::<ChunkPos, Chunk>::empty(),
    {
        let b = self.chunks.is_empty();
        proof {
            if b {
                assert(self@ =~= Map::<ChunkPos, Chunk>::empty());
            } else {
                let key = choose|key: u64| self.chunks@.contains_key(key);
                let pos = ChunkPos::of_key(key);
                pos.lemma_key(key);
                assert(self@.contains_key(pos));
            }
        }
        b
    }

    /// Puts `chunk` at the place `pos`, instead of the chunk that may be there.
    pub fn set_chunk(&mut self, pos: ChunkPos, chunk: Chunk)
        ensures
            final(self)@ == old(self)@.insert(pos, chunk),
    {
        let key = pos.to_key();
        self.chunks.insert(key, chunk);
        proof {
            assert forall|p: ChunkPos| p.key() == key implies p == pos by {
                p.lemma_key(0);
                pos.lemma_key(0);
            }
            assert(self@ =~= old(self)@.insert(pos, chunk));
        }
    }

    /// The chunk at the place `pos`, if there is one.
    pub fn get_chunk(&self, pos: ChunkPos) -> (chunk: Option<&Chunk>)
        ensures
            chunk is Some <==> self@.contains_key(pos),
            chunk is Some ==> *chunk->0 == self@[pos],
    {
        let key = pos.to_key();
        self.chunks.get(&key)
    }

    /// The chunk at the place `pos`, to be changed, if there is one.
    pub fn get_chunk_mut(&mut self, pos: ChunkPos) -> (chunk: Option<&mut Chunk>)
        ensures
            chunk is Some <==> old(self)@.contains_key(pos),
            chunk is Some ==> *chunk->0 == old(self)@[pos] && final(self)@ == old(self)@.insert(
                pos,
                *final(chunk->0),
            ),
            chunk is None ==> final(self)@ == old(self)@,
    {
        let key = pos.to_key();
        proof {
            assert forall|p: ChunkPos| p.key() == key implies p == pos by {
                p.lemma_key(0);
                pos.lemma_key(0);
            }
        }
        map_get_mut(&mut self.chunks, key)
    }

    /// Whether there is a chunk at the place `pos`.
    pub fn has_chunk(&self, pos: ChunkPos) -> (b: bool)
        ensures
            b == self@.contains_key(pos),
    {
        let key = pos.to_key();
        self.chunks.contains_key(&key)
    }

    /// Takes the chunk at the place `pos` out of the world, if there is one.
    pub fn remove_chunk(&mut self, pos: ChunkPos) -> (chunk: Option<Chunk>)
        ensures
            final(self)@ == old(self)@.remove(pos),
            chunk is Some <==> old(self)@.contains_key(pos),
            chunk is Some ==> chunk->0 == old(self)@[pos],
    {
        let key = pos.to_key();
        let chunk = self.chunks.remove(&key);
        proof {
            assert forall|p: ChunkPos| p.key() == key implies p == pos by {
                p.lemma_key(0);
                pos.lemma_key(0);
            }
            assert(self@ =~= old(self)@.remove(pos));
        }
        chunk
    }

    /// The places that have a chunk, each once with its chunk, in no
    /// particular order.
    pub fn iter_chunks(&self) -> (out: Vec<(ChunkPos, &Chunk)>)
        ensures
            out@.len() == self@.dom().len(),
            forall|i: int|
                0 <= i < out@.len() ==> self@.contains_key((#[trigger] out@[i]).0) && *out@[i].1
                    == self@[out@[i].0],
            forall|i: int, j: int| 0 <= i < j < out@.len() ==> out@[i].0 != out@[j].0,
    {
        let mut out: Vec<(ChunkPos, &Chunk)> = Vec::new();
        proof {
            lemma_places(self.chunks@);
            vstd::std_specs::hash::axiom_spec_hash_map_iter(&self.chunks);
        }
        let ghost items = vstd::std_specs::hash::spec_hash_map_iter(&self.chunks).remaining();
        for pair in it: self.chunks.iter()
            invariant
                it.seq() == items,
                out@.len() == it.index(),
                forall|i: int|
                    0 <= i < out@.len() ==> (#[trigger] out@[i]).0 == ChunkPos::of_key(*items[i].0)
                        && out@[i].1 == items[i].1,
        {
            let (key, chunk) = pair;
            out.push((ChunkPos::from_key(*key), chunk));
        }
        proof {
            assert forall|i: int, j: int| 0 <= i < j < out@.len() implies out@[i].0 != out@[j].0 by {
                if out@[i].0 == out@[j].0 {
                    out@[i].0.lemma_key(*items[i].0);
                    out@[j].0.lemma_key(*items[j].0);
                    assert(self.chunks@.contains_key(*items[i].0));
                    assert(self.chunks@.contains_key(*items[j].0));
                    assert(items[i] == items[j]);
                }
            }
        }
        out
    }

    /// The number of chunks.
    pub fn chunk_count(&self) -> (n: usize)
        ensures
            self@.dom().finite(),
            n == self@.dom().len(),
    {
        proof {
            lemma_places(self.chunks@);
        }
        self.chunks.len()
    }
}

impl Default for World {
    fn default() -> (world: Self)
        ensures
            world@ == Map::<ChunkPos, Chunk>::empty(),
    {
        World::new()
    }
}

} // verus!
