//! Lexical blocks: each has at most one parent, and holds the definitions and
//! the labels that were made in it. Names are looked up from a block outward.

use crate::compiler::syntax::{BlockID, DefineResolved, Label, LabelReference, ResolvedValue, Value};
use crate::names::Symbol;
use vstd::prelude::*;

verus! {

/// What is known of one block.
#[derive(Debug)]
pub struct BlockInfo {
    pub parent_block: Option<BlockID>,
    pub child_blocks: Vec<BlockID>,
    /// The definitions of the block; the expansion binds no name twice.
    pub defines: Vec<DefineResolved>,
    pub labels: Vec<Label>,
}

/// A block as a value: its lists as sequences.
pub struct BlockInfoView {
    pub parent: Option<BlockID>,
    pub children: Seq<BlockID>,
    pub defines: Seq<DefineResolved>,
    pub labels: Seq<Label>,
}

impl View for BlockInfo {
    type V = BlockInfoView;

    open spec fn view(&self) -> BlockInfoView {
        BlockInfoView {
            parent: self.parent_block,
            children: self.child_blocks@,
            defines: self.defines@,
            labels: self.labels@,
        }
    }
}

/// All blocks, by their handle.
#[derive(Debug)]
pub struct BlockInfoTracker {
    pub blocks: Vec<BlockInfo>,
}

impl View for BlockInfoTracker {
    type V = Seq<BlockInfoView>;

    open spec fn view(&self) -> Seq<BlockInfoView> {
        Seq::new(self.blocks@.len(), |i: int| self.blocks@[i]@)
    }
}

/// Every block was made after its parent.
pub open spec fn blocks_wf(blocks: Seq<BlockInfoView>) -> bool {
    forall|i: int|
        0 <= i < blocks.len() ==> match (#[trigger] blocks[i]).parent {
            Some(parent) => parent.0 < i,
            None => true,
        }
}

/// Whether a label answers a reference by its name and lets the referring
/// block see it.
pub open spec fn label_admits(label: Label, reference: LabelReference) -> bool {
    &&& label.name == reference.name
    &&& match label.available_in_blocks {
        Some(available) => available@.contains(reference.block_id),
        None => true,
    }
}

/// Whether the block holds a label that admits the reference.
pub open spec fn block_admits(block: BlockInfoView, reference: LabelReference) -> bool {
    exists|i: int| 0 <= i < block.labels.len() && label_admits(#[trigger] block.labels[i], reference)
}

/// The block in which a reference finds its label, looking from `current`
/// outward.
pub open spec fn resolve_label_from(
    blocks: Seq<BlockInfoView>,
    current: BlockID,
    reference: LabelReference,
) -> Option<LabelReference>
    decreases current.0,
{
    if current.0 >= blocks.len() {
        None
    } else if block_admits(blocks[current.0 as int], reference) {
        Some(LabelReference { name: reference.name, block_id: current })
    } else {
        match blocks[current.0 as int].parent {
            Some(parent) => if parent.0 < current.0 {
                resolve_label_from(blocks, parent, reference)
            } else {
                None
            },
            None => None,
        }
    }
}

/// The block `steps` levels outward of `start`, if the chain of parents is
/// that long.
pub open spec fn ancestor(blocks: Seq<BlockInfoView>, start: BlockID, steps: nat) -> Option<BlockID>
    decreases steps,
{
    if start.0 >= blocks.len() {
        None
    } else if steps == 0 {
        Some(start)
    } else {
        match blocks[start.0 as int].parent {
            Some(parent) => ancestor(blocks, parent, (steps - 1) as nat),
            None => None,
        }
    }
}

/// The first definition of `name` in a list of definitions.
pub open spec fn find_in_defines(defines: Seq<DefineResolved>, name: Symbol) -> Option<DefineResolved>
    decreases defines.len(),
{
    if defines.len() == 0 {
        None
    } else if defines[0].name.value == name {
        Some(defines[0])
    } else {
        find_in_defines(defines.drop_first(), name)
    }
}

/// The definition that `name` has in `block`: that of the nearest block,
/// from `block` outward, that defines it.
pub open spec fn find_define(blocks: Seq<BlockInfoView>, block: BlockID, name: Symbol) -> Option<
    DefineResolved,
>
    decreases block.0,
{
    if block.0 >= blocks.len() {
        None
    } else {
        match find_in_defines(blocks[block.0 as int].defines, name) {
            Some(define) => Some(define),
            None => match blocks[block.0 as int].parent {
                Some(parent) => if parent.0 < block.0 {
                    find_define(blocks, parent, name)
                } else {
                    None
                },
                None => None,
            },
        }
    }
}

/// What a value stands for in a block.
pub open spec fn resolve_value(blocks: Seq<BlockInfoView>, block: BlockID, value: Value) -> Option<
    ResolvedValue,
> {
    match value {
        Value::Resolved(resolved) => Some(resolved),
        Value::Constant(name) => match find_define(blocks, block, name) {
            Some(define) => Some(define.value.value),
            None => None,
        },
    }
}

/// The tracker with a new, empty child of `parent` at its end.
pub open spec fn with_new_block(blocks: Seq<BlockInfoView>, parent: BlockID) -> Seq<BlockInfoView> {
    let new_id = BlockID(blocks.len() as usize);
    let old_parent = blocks[parent.0 as int];
    blocks.update(
        parent.0 as int,
        BlockInfoView { children: old_parent.children.push(new_id), ..old_parent },
    ).push(
        BlockInfoView {
            parent: Some(parent),
            children: Seq::empty(),
            defines: Seq::empty(),
            labels: Seq::empty(),
        },
    )
}

/// The tracker with one more label in the block `block`.
pub open spec fn with_label(blocks: Seq<BlockInfoView>, block: BlockID, label: Label) -> Seq<BlockInfoView> {
    let before = blocks[block.0 as int];
    blocks.update(block.0 as int, BlockInfoView { labels: before.labels.push(label), ..before })
}

/// The tracker with one more definition in the block `block`. The latest
/// definition of a name is the first that a lookup finds.
pub open spec fn with_define(blocks: Seq<BlockInfoView>, block: BlockID, define: DefineResolved) -> Seq<
    BlockInfoView,
> {
    let before = blocks[block.0 as int];
    blocks.update(
        block.0 as int,
        BlockInfoView { defines: seq![define] + before.defines, ..before },
    )
}

/// A label resolves in the nearest block, from the referring one outward, that
/// holds a label of its name which the referring block may see; it resolves
/// nowhere if no block on that way holds one.
pub proof fn lemma_label_resolves_to_nearest(
    blocks: Seq<BlockInfoView>,
    current: BlockID,
    reference: LabelReference,
)
    requires
        blocks_wf(blocks),
    ensures
        match resolve_label_from(blocks, current, reference) {
            Some(found) => {
                &&& found.name == reference.name
                &&& exists|steps: nat|
                    {
                        &&& ancestor(blocks, current, steps) == Some(found.block_id)
                        &&& block_admits(blocks[found.block_id.0 as int], reference)
                        &&& forall|nearer: nat|
                            nearer < steps ==> match #[trigger] ancestor(blocks, current, nearer) {
                                Some(block) => !block_admits(blocks[block.0 as int], reference),
                                None => false,
                            }
                    }
            },
            None => forall|steps: nat|
                match #[trigger] ancestor(blocks, current, steps) {
                    Some(block) => !block_admits(blocks[block.0 as int], reference),
                    None => true,
                },
        },
    decreases current.0,
{
    if current.0 >= blocks.len() {
        assert forall|steps: nat| #[trigger] ancestor(blocks, current, steps) is None by {}
    } else if block_admits(blocks[current.0 as int], reference) {
        assert(ancestor(blocks, current, 0) == Some(current));
    } else {
        match blocks[current.0 as int].parent {
            Some(parent) => {
                lemma_label_resolves_to_nearest(blocks, parent, reference);
                match resolve_label_from(blocks, parent, reference) {
                    Some(found) => {
                        let steps = choose|steps: nat|
                            {
                                &&& ancestor(blocks, parent, steps) == Some(found.block_id)
                                &&& block_admits(blocks[found.block_id.0 as int], reference)
                                &&& forall|nearer: nat|
                                    nearer < steps ==> match #[trigger] ancestor(
                                        blocks,
                                        parent,
                                        nearer,
                                    ) {
                                        Some(block) => !block_admits(
                                            blocks[block.0 as int],
                                            reference,
                                        ),
                                        None => false,
                                    }
                            };
                        assert(ancestor(blocks, current, steps + 1) == Some(found.block_id));
                        assert forall|nearer: nat| nearer < steps + 1 implies match #[trigger] ancestor(
                            blocks,
                            current,
                            nearer,
                        ) {
                            Some(block) => !block_admits(blocks[block.0 as int], reference),
                            None => false,
                        } by {
                            if nearer > 0 {
                                assert(ancestor(blocks, current, nearer) == ancestor(
                                    blocks,
                                    parent,
                                    (nearer - 1) as nat,
                                ));
                            }
                        }
                    },
                    None => {
                        assert forall|steps: nat|
                            match #[trigger] ancestor(blocks, current, steps) {
                                Some(block) => !block_admits(blocks[block.0 as int], reference),
                                None => true,
                            } by {
                            if steps > 0 {
                                assert(ancestor(blocks, current, steps) == ancestor(
                                    blocks,
                                    parent,
                                    (steps - 1) as nat,
                                ));
                            }
                        }
                    },
                }
            },
            None => {
                assert forall|steps: nat|
                    match #[trigger] ancestor(blocks, current, steps) {
                        Some(block) => !block_admits(blocks[block.0 as int], reference),
                        None => true,
                    } by {
                    if steps > 0 {
                        assert(ancestor(blocks, current, steps) is None);
                    }
                }
            },
        }
    }
}

/// Whether a list of block handles holds `block`.
pub fn contains_block(blocks: &Vec<BlockID>, block: BlockID) -> (found: bool)
    ensures
        found == blocks@.contains(block),
{
    let mut i: usize = 0;
    while i < blocks.len()
        invariant
            i <= blocks@.len(),
            forall|j: int| 0 <= j < i ==> blocks@[j] != block,
        decreases blocks@.len() - i,
    {
        if blocks[i].0 == block.0 {
            return true;
        }
        i += 1;
    }
    false
}

impl BlockInfoTracker {
    /// A tracker that holds the root block alone.
    pub fn new() -> (tracker: Self)
        ensures
            blocks_wf(tracker@),
            tracker@ == seq![
                BlockInfoView {
                    parent: None,
                    children: Seq::empty(),
                    defines: Seq::empty(),
                    labels: Seq::empty(),
                },
            ],
    {
        let mut blocks: Vec<BlockInfo> = Vec::new();
        blocks.push(
            BlockInfo {
                parent_block: None,
                child_blocks: Vec::new(),
                defines: Vec::new(),
                labels: Vec::new(),
            },
        );
        let tracker = BlockInfoTracker { blocks };
        assert(tracker@ =~= seq![
            BlockInfoView {
                parent: None,
                children: Seq::empty(),
                defines: Seq::empty(),
                labels: Seq::empty(),
            },
        ]);
        tracker
    }

    /// Resolves a reference to a label. The block of `reference` is the one
    /// that refers to the label; the block of the result is the one that holds
    /// it.
    pub fn label_scope(&self, reference: &LabelReference) -> (found: Option<LabelReference>)
        requires
            blocks_wf(self@),
        ensures
            found == resolve_label_from(self@, reference.block_id, *reference),
    {
        let mut current = reference.block_id;
        loop
            invariant
                blocks_wf(self@),
                resolve_label_from(self@, current, *reference) == resolve_label_from(
                    self@,
                    reference.block_id,
                    *reference,
                ),
            decreases current.0,
        {
            if current.0 >= self.blocks.len() {
                return None;
            }
            let info = &self.blocks[current.0];
            let ghost view = self@[current.0 as int];
            let mut i: usize = 0;
            while i < info.labels.len()
                invariant
                    i <= info.labels@.len(),
                    current.0 < self@.len(),
                    view == self@[current.0 as int],
                    view.labels == info.labels@,
                    resolve_label_from(self@, current, *reference) == resolve_label_from(
                        self@,
                        reference.block_id,
                        *reference,
                    ),
                    forall|j: int| 0 <= j < i ==> !label_admits(#[trigger] view.labels[j], *reference),
                decreases info.labels@.len() - i,
            {
                let label = &info.labels[i];
                if label.name.0 == reference.name.0 {
                    let admitted = match &label.available_in_blocks {
                        Some(available) => contains_block(available, reference.block_id),
                        None => true,
                    };
                    if admitted {
                        assert(label_admits(view.labels[i as int], *reference));
                        return Some(LabelReference { name: reference.name, block_id: current });
                    }
                }
                i += 1;
            }
            match info.parent_block {
                Some(parent) => {
                    current = parent;
                },
                None => {
                    return None;
                },
            }
        }
    }

    /// The definition that `name` has in the block `block_id`.
    pub fn get_define(&self, block_id: BlockID, name: Symbol) -> (found: Option<&DefineResolved>)
        requires
            blocks_wf(self@),
        ensures
            match found {
                Some(define) => find_define(self@, block_id, name) == Some(*define),
                None => find_define(self@, block_id, name) is None,
            },
    {
        let mut current = block_id;
        loop
            invariant
                blocks_wf(self@),
                find_define(self@, current, name) == find_define(self@, block_id, name),
            decreases current.0,
        {
            if current.0 >= self.blocks.len() {
                return None;
            }
            let info = &self.blocks[current.0];
            let ghost defines = info.defines@;
            assert(defines.skip(0) =~= defines);
            let mut i: usize = 0;
            while i < info.defines.len()
                invariant
                    i <= info.defines@.len(),
                    defines == info.defines@,
                    current.0 < self@.len(),
                    defines == self@[current.0 as int].defines,
                    find_define(self@, current, name) == find_define(self@, block_id, name),
                    find_in_defines(defines, name) == find_in_defines(defines.skip(i as int), name),
                decreases info.defines@.len() - i,
            {
                let define = &info.defines[i];
                if define.name.value.0 == name.0 {
                    assert(defines.skip(i as int)[0] == *define);
                    return Some(define);
                }
                assert(defines.skip(i as int).drop_first() =~= defines.skip(i + 1));
                i += 1;
            }
            assert(defines.skip(i as int).len() == 0);
            match info.parent_block {
                Some(parent) => {
                    current = parent;
                },
                None => {
                    return None;
                },
            }
        }
    }

    /// What `value` stands for in the block `block_id`: itself, or what the
    /// constant that it names is defined as.
    pub fn resolve(&self, block_id: BlockID, value: Value) -> (resolved: Option<ResolvedValue>)
        requires
            blocks_wf(self@),
        ensures
            resolved == resolve_value(self@, block_id, value),
    {
        match value {
            Value::Resolved(resolved) => Some(resolved),
            Value::Constant(name) => match self.get_define(block_id, name) {
                Some(define) => Some(define.value.value.clone()),
                None => None,
            },
        }
    }

    /// As `resolve`, without a copy.
    pub fn resolve_ref<'a>(&'a self, block_id: BlockID, value: &'a Value) -> (resolved: Option<
        &'a ResolvedValue,
    >)
        requires
            blocks_wf(self@),
        ensures
            match resolved {
                Some(found) => resolve_value(self@, block_id, *value) == Some(*found),
                None => resolve_value(self@, block_id, *value) is None,
            },
    {
        match value {
            Value::Resolved(resolved) => Some(resolved),
            Value::Constant(name) => match self.get_define(block_id, *name) {
                Some(define) => Some(&define.value.value),
                None => None,
            },
        }
    }

    /// Enters a label into the block `block`.
    pub fn add_label(&mut self, block: BlockID, label: Label)
        requires
            blocks_wf(old(self)@),
            block.0 < old(self)@.len(),
        ensures
            final(self)@ == with_label(old(self)@, block, label),
            blocks_wf(final(self)@),
    {
        let ghost before = self@;
        self.blocks[block.0].labels.push(label);
        assert(self@ =~= with_label(before, block, label));
    }

    /// Binds a definition in the block `block`.
    pub fn bind_define(&mut self, block: BlockID, define: DefineResolved)
        requires
            blocks_wf(old(self)@),
            block.0 < old(self)@.len(),
        ensures
            final(self)@ == with_define(old(self)@, block, define),
            blocks_wf(final(self)@),
    {
        let ghost before = self@;
        self.blocks[block.0].defines.insert(0, define);
        assert(self.blocks@[block.0 as int].defines@ =~= seq![define] + before[block.0 as int].defines);
        assert(self@ =~= with_define(before, block, define));
    }

    /// Whether the block `block` itself defines `name`.
    pub fn defines_here(&self, block: BlockID, name: Symbol) -> (defined: bool)
        requires
            block.0 < self@.len(),
        ensures
            defined == (find_in_defines(self@[block.0 as int].defines, name) is Some),
    {
        let info = &self.blocks[block.0];
        let ghost defines = info.defines@;
        assert(defines.skip(0) =~= defines);
        assert(defines == self@[block.0 as int].defines);
        let mut i: usize = 0;
        while i < info.defines.len()
            invariant
                i <= info.defines@.len(),
                defines == info.defines@,
                block.0 < self@.len(),
                defines == self@[block.0 as int].defines,
                find_in_defines(defines, name) == find_in_defines(defines.skip(i as int), name),
            decreases info.defines@.len() - i,
        {
            if info.defines[i].name.value.0 == name.0 {
                assert(defines.skip(i as int)[0] == info.defines@[i as int]);
                return true;
            }
            assert(defines.skip(i as int).drop_first() =~= defines.skip(i + 1));
            i += 1;
        }
        assert(defines.skip(i as int).len() == 0);
        false
    }

    /// The number of blocks.
    pub fn len(&self) -> (count: usize)
        ensures
            count == self@.len(),
    {
        self.blocks.len()
    }

    /// Makes a new, empty block inside `parent` and returns its handle.
    pub fn new_block(&mut self, parent: BlockID) -> (new_id: BlockID)
        requires
            blocks_wf(old(self)@),
            parent.0 < old(self)@.len(),
        ensures
            new_id == BlockID(old(self)@.len() as usize),
            final(self)@ == with_new_block(old(self)@, parent),
            blocks_wf(final(self)@),
    {
        let new_id = BlockID(self.blocks.len());
        let ghost before = self@;
        self.blocks[parent.0].child_blocks.push(new_id);
        self.blocks.push(
            BlockInfo {
                parent_block: Some(parent),
                child_blocks: Vec::new(),
                defines: Vec::new(),
                labels: Vec::new(),
            },
        );
        assert(self@ =~= with_new_block(before, parent));
        new_id
    }
}

} // verus!
