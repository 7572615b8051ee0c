use vstd::prelude::*;

use crate::bounds::spec_from_faces;
use crate::builder::{empty_input_node, spec_built_faces, subtree_ok, Bvh, BvhNode};
use crate::misc::{next_id, spec_wrapping_inc};
use crate::types::Triangle;

verus! {

/// One loaded model: its identity and where its private hierarchy was
/// spliced into the scene-global arrays.
///
/// The node and leaf indices stored inside the model's own nodes stay
/// local, exactly as the builder produced them; a consumer adds
/// `node_offset` or `face_offset` before indexing the global arrays. This
/// keeps the merge at append cost — no index inside a subtree is ever
/// rewritten.
#[derive(PartialEq, Eq, Debug)]
pub struct Model {
    pub name: String,
    pub id: u32,
    pub node_offset: u32,
    pub face_offset: u32,
}

/// The scene-global arrays under construction: every loaded mesh's faces
/// and nodes appended in load order, the models recording where each
/// mesh's run begins, and the counter that numbers the models.
#[derive(Debug)]
pub struct Scene {
    pub models: Vec<Model>,
    pub faces: Vec<Triangle>,
    pub nodes: Vec<BvhNode>,
    pub next_model_id: u32,
}

/// What one `add_mesh` call does to a scene loading the run `input`: both
/// global arrays keep their contents and grow at the end, a model is
/// appended whose offsets name the old array lengths, and the counter
/// advances. The appended node run is the mesh's own hierarchy: its faces
/// are a reordering of `input`, its root sits first with the exact bound
/// of `input`, and for a non-empty mesh it is well formed with the
/// default tuning.
pub open spec fn mesh_added(pre: Scene, post: Scene, input: Seq<Triangle>) -> bool {
    &&& post.faces@.len() == pre.faces@.len() + input.len()
    &&& post.faces@.subrange(0, pre.faces@.len() as int) == pre.faces@
    &&& post.faces@.subrange(pre.faces@.len() as int, post.faces@.len() as int).to_multiset()
        == input.to_multiset()
    &&& post.faces@.subrange(pre.faces@.len() as int, post.faces@.len() as int)
        == spec_built_faces(input, 2, 32)
    &&& post.nodes@.len() > pre.nodes@.len()
    &&& post.nodes@.subrange(0, pre.nodes@.len() as int) == pre.nodes@
    &&& post.nodes@[pre.nodes@.len() as int].bounds == spec_from_faces(input)
    &&& post.models@.len() == pre.models@.len() + 1
    &&& post.models@.subrange(0, pre.models@.len() as int) == pre.models@
    &&& post.models@.last().id == pre.next_model_id
    &&& post.models@.last().node_offset as int == pre.nodes@.len()
    &&& post.models@.last().face_offset as int == pre.faces@.len()
    &&& post.next_model_id == spec_wrapping_inc(pre.next_model_id)
    &&& input.len() == 0 ==> {
        &&& post.nodes@.len() == pre.nodes@.len() + 1
        &&& post.nodes@.last() == empty_input_node(0)
    }
    &&& input.len() > 0 ==> subtree_ok(
        post.nodes@.subrange(pre.nodes@.len() as int, post.nodes@.len() as int),
        post.faces@.subrange(pre.faces@.len() as int, post.faces@.len() as int),
        0,
        2,
        32,
        0,
        input.len() as int,
        1,
        post.nodes@.len() - pre.nodes@.len(),
    )
}

impl Scene {
    /// A scene with nothing loaded yet.
    pub fn empty() -> (s: Scene)
        ensures
            s.models@.len() == 0,
            s.faces@.len() == 0,
            s.nodes@.len() == 0,
            s.next_model_id == 0,
    {
        Scene { models: Vec::new(), faces: Vec::new(), nodes: Vec::new(), next_model_id: 0 }
    }

    /// Build the hierarchy for one mesh and splice it into the global
    /// arrays: record the current array lengths as the new model's
    /// offsets, append the mesh's faces and nodes unchanged, and number
    /// the model from the scene's counter.
    pub fn add_mesh(&mut self, name: String, triangles: &Vec<Triangle>)
        requires
            triangles@.len() <= 0x01FF_FFFF,
            old(self).faces@.len() + triangles@.len() <= u32::MAX,
            old(self).nodes@.len() + 1 + 4 * (triangles@.len() as int) * 32 <= u32::MAX,
            old(self).models@.len() < usize::MAX,
        ensures
            mesh_added(*old(self), *final(self), triangles@),
            final(self).models@.last().name == name,
    {
        let bvh = Bvh::from_mesh(triangles);
        let node_offset = self.nodes.len() as u32;
        let face_offset = self.faces.len() as u32;
        let id = next_id(&mut self.next_model_id);
        self.models.push(Model { name, id, node_offset, face_offset });
        let ghost faces_pre = self.faces@;
        let ghost nodes_pre = self.nodes@;
        append_triangles(&mut self.faces, &bvh.faces);
        append_nodes(&mut self.nodes, &bvh.nodes);
        proof {
            assert(self.faces@.subrange(0, faces_pre.len() as int) =~= faces_pre);
            assert(self.nodes@.subrange(0, nodes_pre.len() as int) =~= nodes_pre);
            assert(self.faces@.subrange(faces_pre.len() as int, self.faces@.len() as int)
                =~= bvh.faces@);
            assert(self.nodes@.subrange(nodes_pre.len() as int, self.nodes@.len() as int)
                =~= bvh.nodes@);
            assert(self.models@.subrange(0, old(self).models@.len() as int)
                =~= old(self).models@);
        }
    }
}

/// Append a copy of `src` to `dst`.
fn append_triangles(dst: &mut Vec<Triangle>, src: &Vec<Triangle>)
    ensures
        final(dst)@ == old(dst)@ + src@,
{
    let mut i: usize = 0;
    while i < src.len()
        invariant
            0 <= i <= src@.len(),
            dst@ =~= old(dst)@ + src@.subrange(0, i as int),
        decreases src@.len() - i,
    {
        dst.push(src[i]);
        proof {
            assert(dst@ =~= old(dst)@ + src@.subrange(0, i + 1));
        }
        i = i + 1;
    }
    proof {
        assert(dst@ =~= old(dst)@ + src@);
    }
}

/// Append a copy of `src` to `dst`.
fn append_nodes(dst: &mut Vec<BvhNode>, src: &Vec<BvhNode>)
    ensures
        final(dst)@ == old(dst)@ + src@,
{
    let mut i: usize = 0;
    while i < src.len()
        invariant
            0 <= i <= src@.len(),
            dst@ =~= old(dst)@ + src@.subrange(0, i as int),
        decreases src@.len() - i,
    {
        dst.push(src[i]);
        proof {
            assert(dst@ =~= old(dst)@ + src@.subrange(0, i + 1));
        }
        i = i + 1;
    }
    proof {
        assert(dst@ =~= old(dst)@ + src@);
    }
}

} // verus!
