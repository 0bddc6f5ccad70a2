use vstd::prelude::*;

verus! {

/// Index of a markup node in its pool.
pub type MarkNodeId = usize;

/// Identifier of the syntax-tree node that a markup node shows.
pub type ExprId = u64;

/// How a piece of text is highlighted.
#[derive(Copy, Clone, Debug, PartialEq, Eq, Structural)]
pub enum HighlightStyle {
    Operator,
    String,
    FunctionName,
    Type,
    Bracket,
    Number,
    PackageRelated,
    Variable,
    RecordField,
    Import,
    Provides,
    Blank,
}

/// Caret positions and other decorations of a node.
pub struct Attributes {
    pub caret_offsets: Vec<usize>,
}

impl Attributes {
    pub fn new() -> (r: Attributes)
        ensures
            r.caret_offsets@.len() == 0,
    {
        Attributes { caret_offsets: Vec::new() }
    }
}

/// A node of the markup tree that the editor draws.
pub enum MarkupNode {
    Nested {
        ast_node_id: ExprId,
        children_ids: Vec<MarkNodeId>,
        parent_id_opt: Option<MarkNodeId>,
        newline_at_end: bool,
    },
    Text {
        content: String,
        ast_node_id: ExprId,
        syn_high_style: HighlightStyle,
        attributes: Attributes,
        parent_id_opt: Option<MarkNodeId>,
        newline_at_end: bool,
    },
    Blank {
        ast_node_id: ExprId,
        attributes: Attributes,
        syn_high_style: HighlightStyle,
        parent_id_opt: Option<MarkNodeId>,
        newline_at_end: bool,
    },
}

/// What the editor shows for a blank node.
pub const BLANK_PLACEHOLDER: &'static str = " ";

/// Why an editor operation failed.
pub enum EdError {
    /// The node has no such child.
    NestedNodeMissingChild { node_id: MarkNodeId, children_ids: Vec<MarkNodeId> },
    /// The operation needs a nested node.
    NestedNodeRequired { node_type: String },
    /// The operation needs a text node.
    ExpectedTextNode { function_name: String, node_type: String },
    /// An id that a list does not hold.
    IndexOfFailed { elt: MarkNodeId },
    /// An index past the end of a list.
    OutOfBounds { index: usize, len: usize },
}

pub type EdResult<T> = Result<T, EdError>;

pub open spec fn ast_id_of(n: MarkupNode) -> ExprId {
    match n {
        MarkupNode::Nested { ast_node_id, .. } => ast_node_id,
        MarkupNode::Text { ast_node_id, .. } => ast_node_id,
        MarkupNode::Blank { ast_node_id, .. } => ast_node_id,
    }
}

pub open spec fn parent_of(n: MarkupNode) -> Option<MarkNodeId> {
    match n {
        MarkupNode::Nested { parent_id_opt, .. } => parent_id_opt,
        MarkupNode::Text { parent_id_opt, .. } => parent_id_opt,
        MarkupNode::Blank { parent_id_opt, .. } => parent_id_opt,
    }
}

/// The children of a nested node; other nodes have none.
pub open spec fn children_of(n: MarkupNode) -> Seq<MarkNodeId> {
    match n {
        MarkupNode::Nested { children_ids, .. } => children_ids@,
        _ => Seq::empty(),
    }
}

pub open spec fn newline_of(n: MarkupNode) -> bool {
    match n {
        MarkupNode::Nested { newline_at_end, .. } => newline_at_end,
        MarkupNode::Text { newline_at_end, .. } => newline_at_end,
        MarkupNode::Blank { newline_at_end, .. } => newline_at_end,
    }
}

/// The text a node shows: its content, a space for a blank, nothing for a nested node.
pub open spec fn content_of(n: MarkupNode) -> Seq<char> {
    match n {
        MarkupNode::Nested { .. } => Seq::empty(),
        MarkupNode::Text { content, .. } => content@,
        MarkupNode::Blank { .. } => seq![' '],
    }
}

pub open spec fn type_name_of(n: MarkupNode) -> Seq<char> {
    match n {
        MarkupNode::Nested { .. } => seq!['N', 'e', 's', 't', 'e', 'd'],
        MarkupNode::Text { .. } => seq!['T', 'e', 'x', 't'],
        MarkupNode::Blank { .. } => seq!['B', 'l', 'a', 'n', 'k'],
    }
}

pub open spec fn style_of(n: MarkupNode) -> Option<HighlightStyle> {
    match n {
        MarkupNode::Nested { .. } => None,
        MarkupNode::Text { syn_high_style, .. } => Some(syn_high_style),
        MarkupNode::Blank { syn_high_style, .. } => Some(syn_high_style),
    }
}

/// The children among `children` that show another syntax-tree node than `ast`
/// (the others are punctuation of the node itself).
pub open spec fn ast_children(children: Seq<MarkNodeId>, pool: Seq<MarkupNode>, ast: ExprId) -> Seq<MarkNodeId> {
    children.filter(|c: MarkNodeId| ast_id_of(pool[c as int]) != ast)
}

pub open spec fn set_content_name() -> Seq<char> {
    seq!['s', 'e', 't', '_', 'c', 'o', 'n', 't', 'e', 'n', 't']
}

pub open spec fn is_ascii_alphanumeric_char(c: char) -> bool {
    ('0' <= c <= '9') || ('a' <= c <= 'z') || ('A' <= c <= 'Z')
}

/// A copy of the ids `v`.
pub fn copy_ids(v: &Vec<MarkNodeId>) -> (r: Vec<MarkNodeId>)
    ensures
        r@ == v@,
{
    let mut r: Vec<MarkNodeId> = Vec::new();
    let mut i: usize = 0;
    while i < v.len()
        invariant
            i <= v@.len(),
            r@ == v@.subrange(0, i as int),
        decreases v@.len() - i,
    {
        r.push(v[i]);
        i = i + 1;
        assert(r@ =~= v@.subrange(0, i as int));
    }
    assert(r@ =~= v@);
    r
}

impl MarkupNode {
    pub fn get_ast_node_id(&self) -> (r: ExprId)
        ensures
            r == ast_id_of(*self),
    {
        match self {
            MarkupNode::Nested { ast_node_id, .. } => *ast_node_id,
            MarkupNode::Text { ast_node_id, .. } => *ast_node_id,
            MarkupNode::Blank { ast_node_id, .. } => *ast_node_id,
        }
    }

    pub fn get_parent_id_opt(&self) -> (r: Option<MarkNodeId>)
        ensures
            r == parent_of(*self),
    {
        match self {
            MarkupNode::Nested { parent_id_opt, .. } => *parent_id_opt,
            MarkupNode::Text { parent_id_opt, .. } => *parent_id_opt,
            MarkupNode::Blank { parent_id_opt, .. } => *parent_id_opt,
        }
    }

    pub fn get_children_ids(&self) -> (r: Vec<MarkNodeId>)
        ensures
            r@ == children_of(*self),
    {
        match self {
            MarkupNode::Nested { children_ids, .. } => copy_ids(children_ids),
            MarkupNode::Text { .. } => Vec::new(),
            MarkupNode::Blank { .. } => Vec::new(),
        }
    }

    /// The children of this node's parent (this node among them).
    pub fn get_sibling_ids(&self, markup_node_pool: &SlowPool) -> (r: Vec<MarkNodeId>)
        requires
            parent_of(*self) is Some ==> parent_of(*self)->0 < markup_node_pool.nodes@.len(),
        ensures
            r@ == match parent_of(*self) {
                Some(p) => children_of(markup_node_pool.nodes@[p as int]),
                None => Seq::empty(),
            },
    {
        match self.get_parent_id_opt() {
            Some(parent_id) => markup_node_pool.get(parent_id).get_children_ids(),
            None => Vec::new(),
        }
    }

    /// The index of `child_id` among the children of this nested node (its
    /// last occurrence), and the index among the children that show other
    /// syntax-tree nodes than this one at which a new child goes in next to it.
    #[verifier::rlimit(40)]
    pub fn get_child_indices(&self, child_id: MarkNodeId, markup_node_pool: &SlowPool) -> (r: EdResult<(usize, usize)>)
        requires
            forall|i: int| 0 <= i < children_of(*self).len() ==> (#[trigger] children_of(*self)[i]) < markup_node_pool.nodes@.len(),
        ensures
            !(*self is Nested) ==> r is Err && r->Err_0 is NestedNodeRequired
                && r->Err_0->NestedNodeRequired_node_type@ == type_name_of(*self),
            (*self is Nested && !children_of(*self).contains(child_id)) ==> r is Err && r->Err_0 is NestedNodeMissingChild
                && r->Err_0->NestedNodeMissingChild_node_id == child_id
                && r->Err_0->NestedNodeMissingChild_children_ids@ == children_of(*self),
            (*self is Nested && children_of(*self).len() > 0 && children_of(*self).last() == child_id) ==> r is Ok
                && r->Ok_0.0 == children_of(*self).len() - 1,
            r is Ok && r->Ok_0.0 == children_of(*self).len() - 1 ==> r->Ok_0.1 == ast_children(
                children_of(*self),
                markup_node_pool.nodes@,
                ast_id_of(*self),
            ).len(),
            r is Ok ==> {
                let (i, _) = r->Ok_0;
                &&& i < children_of(*self).len()
                &&& children_of(*self)[i as int] == child_id
                &&& forall|j: int| i < j < children_of(*self).len() ==> children_of(*self)[j] != child_id
            },
    {
        match self {
            MarkupNode::Nested { children_ids, .. } => {
                let mut mark_child_index_opt: Option<usize> = None;
                let mut child_ids_with_ast: Vec<MarkNodeId> = Vec::new();
                let self_ast_id = self.get_ast_node_id();
                assert(children_ids@ == children_of(*self));
                let mut indx: usize = 0;
                while indx < children_ids.len()
                    invariant
                        indx <= children_ids@.len(),
                        children_ids@ == children_of(*self),
                        forall|i: int| 0 <= i < children_ids@.len() ==> (#[trigger] children_ids@[i]) < markup_node_pool.nodes@.len(),
                        match mark_child_index_opt {
                            Some(c) => c < indx && children_ids@[c as int] == child_id && forall|j: int| c < j < indx ==> children_ids@[j] != child_id,
                            None => forall|j: int| 0 <= j < indx ==> children_ids@[j] != child_id,
                        },
                        child_ids_with_ast@ == ast_children(children_ids@.subrange(0, indx as int), markup_node_pool.nodes@, self_ast_id),
                        self_ast_id == ast_id_of(*self),
                    decreases children_ids@.len() - indx,
                {
                    let mark_child_id = children_ids[indx];
                    proof {
                        let pre = children_ids@.subrange(0, indx as int);
                        assert(children_ids@.subrange(0, indx + 1) =~= pre.push(mark_child_id));
                        pre.lemma_filter_push(mark_child_id, |c: MarkNodeId| ast_id_of(markup_node_pool.nodes@[c as int]) != self_ast_id);
                    }
                    if mark_child_id == child_id {
                        mark_child_index_opt = Some(indx);
                    }
                    let child_mark_node = markup_node_pool.get(mark_child_id);
                    if child_mark_node.get_ast_node_id() != self_ast_id {
                        child_ids_with_ast.push(mark_child_id);
                    }
                    indx = indx + 1;
                }
                match mark_child_index_opt {
                    Some(child_index) => {
                        proof {
                            assert(*self is Nested);
                            assert(children_of(*self)[child_index as int] == child_id);
                            assert(children_of(*self).contains(child_id));
                            assert(children_ids@.subrange(0, children_ids@.len() as int) =~= children_ids@);
                            if child_index != children_ids@.len() - 1 {
                                assert(children_ids@[children_ids@.len() - 1] != child_id);
                            }
                        }
                        if child_index == children_ids.len() - 1 {
                            Ok((child_index, child_ids_with_ast.len()))
                        } else {
                            let mut last_diff: usize = usize::MAX;
                            let mut best_index: usize = 0;
                            let mut k: usize = 0;
                            let mut done = false;
                            while k < child_ids_with_ast.len() && !done
                                invariant
                                    k <= child_ids_with_ast@.len(),
                                    *self is Nested,
                                    children_ids@ == children_of(*self),
                                    children_of(*self).contains(child_id),
                                    child_index < children_ids@.len(),
                                    child_index != children_ids@.len() - 1,
                                    children_of(*self).last() != child_id,
                                decreases child_ids_with_ast@.len() - k,
                            {
                                match index_of(child_ids_with_ast[k], children_ids) {
                                    Ok(index) => {
                                        let curr_diff = if index >= child_index {
                                            index - child_index
                                        } else {
                                            child_index - index
                                        };
                                        if curr_diff >= last_diff {
                                            done = true;
                                        } else {
                                            last_diff = curr_diff;
                                            best_index = index;
                                        }
                                    },
                                    Err(e) => {
                                        return Err(e);
                                    },
                                }
                                k = k + 1;
                            }
                            let closest_ast_child = slice_get(best_index, children_ids)?;
                            let closest_ast_child_index = index_of(closest_ast_child, &child_ids_with_ast)?;
                            if closest_ast_child_index >= usize::MAX - 1 {
                                return Err(EdError::OutOfBounds { index: closest_ast_child_index, len: child_ids_with_ast.len() });
                            }
                            Ok((child_index, closest_ast_child_index + 1))
                        }
                    },
                    None => Err(EdError::NestedNodeMissingChild { node_id: child_id, children_ids: copy_ids(children_ids) }),
                }
            },
            _ => Err(EdError::NestedNodeRequired { node_type: self.node_type_as_string() }),
        }
    }

    /// The text the node shows.
    pub fn get_content(&self) -> (r: String)
        ensures
            r@ == content_of(*self),
    {
        match self {
            MarkupNode::Nested { .. } => {
                let r = "".to_owned();
                proof {
                    reveal_strlit("");
                }
                r
            },
            MarkupNode::Text { content, .. } => content.clone(),
            MarkupNode::Blank { .. } => {
                let r = BLANK_PLACEHOLDER.to_owned();
                proof {
                    reveal_strlit(" ");
                }
                r
            },
        }
    }

    /// The content of a text node, to change it.
    pub fn get_content_mut(&mut self) -> (r: EdResult<&mut String>)
        ensures
            (*old(self) is Text) == (r is Ok),
            r is Err ==> *final(self) == *old(self) && r->Err_0 is ExpectedTextNode
                && r->Err_0->ExpectedTextNode_function_name@ == set_content_name()
                && r->Err_0->ExpectedTextNode_node_type@ == type_name_of(*old(self)),
    {
        match self {
            MarkupNode::Text { content, .. } => Ok(content),
            _ => {
                let function_name = "set_content".to_owned();
                proof {
                    reveal_strlit("set_content");
                    assert(function_name@ =~= set_content_name());
                }
                Err(EdError::ExpectedTextNode { function_name, node_type: self.node_type_as_string() })
            },
        }
    }

    /// Whether every character the node shows is an ASCII letter or digit.
    pub fn is_all_alphanumeric(&self) -> (r: bool)
        ensures
            r == forall|i: int| 0 <= i < content_of(*self).len() ==> is_ascii_alphanumeric_char(#[trigger] content_of(*self)[i]),
    {
        let content = self.get_content();
        let n = content.as_str().unicode_len();
        let mut i: usize = 0;
        while i < n
            invariant
                i <= n,
                n == content@.len(),
                content@ == content_of(*self),
                forall|j: int| 0 <= j < i ==> is_ascii_alphanumeric_char(#[trigger] content@[j]),
            decreases n - i,
        {
            let c = content.as_str().get_char(i);
            if !(('0' <= c && c <= '9') || ('a' <= c && c <= 'z') || ('A' <= c && c <= 'Z')) {
                return false;
            }
            i = i + 1;
        }
        true
    }

    /// Inserts `child_id` among the children of this nested node, at `index`.
    pub fn add_child_at_index(&mut self, index: usize, child_id: MarkNodeId) -> (r: EdResult<()>)
        requires
            *old(self) is Nested ==> index <= children_of(*old(self)).len(),
        ensures
            (*old(self) is Nested) == (r is Ok),
            r is Ok ==> children_of(*final(self)) == children_of(*old(self)).insert(index as int, child_id),
            r is Ok ==> ast_id_of(*final(self)) == ast_id_of(*old(self)) && parent_of(*final(self)) == parent_of(*old(self)),
            r is Ok ==> (*final(self) is Nested) && newline_of(*final(self)) == newline_of(*old(self)),
            r is Err ==> *final(self) == *old(self) && r->Err_0 is NestedNodeRequired
                && r->Err_0->NestedNodeRequired_node_type@ == type_name_of(*old(self)),
    {
        match self {
            MarkupNode::Nested { children_ids, .. } => {
                children_ids.insert(index, child_id);
                Ok(())
            },
            _ => Err(EdError::NestedNodeRequired { node_type: self.node_type_as_string() }),
        }
    }

    pub fn node_type_as_string(&self) -> (r: String)
        ensures
            r@ == type_name_of(*self),
    {
        match self {
            MarkupNode::Nested { .. } => {
                let r = "Nested".to_owned();
                proof {
                    reveal_strlit("Nested");
                }
                r
            },
            MarkupNode::Text { .. } => {
                let r = "Text".to_owned();
                proof {
                    reveal_strlit("Text");
                }
                r
            },
            MarkupNode::Blank { .. } => {
                let r = "Blank".to_owned();
                proof {
                    reveal_strlit("Blank");
                }
                r
            },
        }
    }

    pub fn is_blank(&self) -> (r: bool)
        ensures
            r == (*self is Blank),
    {
        match self {
            MarkupNode::Blank { .. } => true,
            _ => false,
        }
    }

    pub fn is_nested(&self) -> (r: bool)
        ensures
            r == (*self is Nested),
    {
        match self {
            MarkupNode::Nested { .. } => true,
            _ => false,
        }
    }

    pub fn has_newline_at_end(&self) -> (r: bool)
        ensures
            r == newline_of(*self),
    {
        match self {
            MarkupNode::Nested { newline_at_end, .. } => *newline_at_end,
            MarkupNode::Text { newline_at_end, .. } => *newline_at_end,
            MarkupNode::Blank { newline_at_end, .. } => *newline_at_end,
        }
    }

    pub fn add_newline_at_end(&mut self)
        ensures
            newline_of(*final(self)),
            ast_id_of(*final(self)) == ast_id_of(*old(self)),
            parent_of(*final(self)) == parent_of(*old(self)),
            children_of(*final(self)) == children_of(*old(self)),
            (*final(self) is Nested) == (*old(self) is Nested),
            (*final(self) is Text) == (*old(self) is Text),
            content_of(*final(self)) == content_of(*old(self)),
            style_of(*final(self)) == style_of(*old(self)),
    {
        match self {
            MarkupNode::Nested { newline_at_end, .. } => *newline_at_end = true,
            MarkupNode::Text { newline_at_end, .. } => *newline_at_end = true,
            MarkupNode::Blank { newline_at_end, .. } => *newline_at_end = true,
        }
    }

    /// Makes `parent` the parent of this node.
    pub fn set_parent(&mut self, parent: MarkNodeId)
        ensures
            parent_of(*final(self)) == Some(parent),
            ast_id_of(*final(self)) == ast_id_of(*old(self)),
            children_of(*final(self)) == children_of(*old(self)),
            (*final(self) is Nested) == (*old(self) is Nested),
            newline_of(*final(self)) == newline_of(*old(self)),
    {
        match self {
            MarkupNode::Nested { parent_id_opt, .. } => *parent_id_opt = Some(parent),
            MarkupNode::Text { parent_id_opt, .. } => *parent_id_opt = Some(parent),
            MarkupNode::Blank { parent_id_opt, .. } => *parent_id_opt = Some(parent),
        }
    }
}

/// The index of `elt` in `slice`.
pub fn index_of(elt: MarkNodeId, slice: &Vec<MarkNodeId>) -> (r: EdResult<usize>)
    ensures
        r is Ok <==> slice@.contains(elt),
        r is Ok ==> r->Ok_0 < slice@.len() && slice@[r->Ok_0 as int] == elt && forall|j: int| 0 <= j < r->Ok_0 ==> slice@[j] != elt,
{
    let mut i: usize = 0;
    while i < slice.len()
        invariant
            i <= slice@.len(),
            forall|j: int| 0 <= j < i ==> slice@[j] != elt,
        decreases slice@.len() - i,
    {
        if slice[i] == elt {
            return Ok(i);
        }
        i = i + 1;
    }
    Err(EdError::IndexOfFailed { elt })
}

/// The element of `slice` at `index`.
pub fn slice_get(index: usize, slice: &Vec<MarkNodeId>) -> (r: EdResult<MarkNodeId>)
    ensures
        r is Ok <==> index < slice@.len(),
        r is Ok ==> r->Ok_0 == slice@[index as int],
{
    if index < slice.len() {
        Ok(slice[index])
    } else {
        Err(EdError::OutOfBounds { index, len: slice.len() })
    }
}

/// The markup nodes of one editor view, by id.
pub struct SlowPool {
    pub nodes: Vec<MarkupNode>,
}

impl SlowPool {
    pub fn new() -> (r: SlowPool)
        ensures
            r.nodes@.len() == 0,
    {
        SlowPool { nodes: Vec::new() }
    }

    /// Adds `node` and returns its id.
    pub fn add(&mut self, node: MarkupNode) -> (r: MarkNodeId)
        requires
            old(self).nodes@.len() < usize::MAX,
        ensures
            r == old(self).nodes@.len(),
            final(self).nodes@ == old(self).nodes@.push(node),
    {
        let id = self.nodes.len();
        self.nodes.push(node);
        id
    }

    pub fn get(&self, id: MarkNodeId) -> (r: &MarkupNode)
        requires
            id < self.nodes@.len(),
        ensures
            *r == self.nodes@[id as int],
    {
        &self.nodes[id]
    }

    /// Makes `parent` the parent of node `id`.
    pub fn set_parent(&mut self, id: MarkNodeId, parent: MarkNodeId)
        requires
            id < old(self).nodes@.len(),
        ensures
            final(self).nodes@.len() == old(self).nodes@.len(),
            parent_of(final(self).nodes@[id as int]) == Some(parent),
            children_of(final(self).nodes@[id as int]) == children_of(old(self).nodes@[id as int]),
            ast_id_of(final(self).nodes@[id as int]) == ast_id_of(old(self).nodes@[id as int]),
            (final(self).nodes@[id as int] is Nested) == (old(self).nodes@[id as int] is Nested),
            newline_of(final(self).nodes@[id as int]) == newline_of(old(self).nodes@[id as int]),
            forall|k: int| 0 <= k < old(self).nodes@.len() && k != id ==> final(self).nodes@[k] == old(self).nodes@[k],
    {
        let mut node = self.nodes.remove(id);
        node.set_parent(parent);
        self.nodes.insert(id, node);
        assert forall|k: int| 0 <= k < old(self).nodes@.len() && k != id implies self.nodes@[k] == old(self).nodes@[k] by {
            if k < id {
            } else {
            }
        }
    }
}

/// Pool `b` has the nodes of pool `a`, with the same kinds, syntax-tree ids
/// and children; only parents may differ.
pub open spec fn shape_kept(a: Seq<MarkupNode>, b: Seq<MarkupNode>) -> bool {
    &&& a.len() == b.len()
    &&& forall|k: int|
        0 <= k < a.len() ==> {
            &&& children_of(#[trigger] b[k]) == children_of(a[k])
            &&& ast_id_of(b[k]) == ast_id_of(a[k])
            &&& (b[k] is Nested) == (a[k] is Nested)
            &&& newline_of(b[k]) == newline_of(a[k])
        }
}

/// Makes every node below `markup_node_id` point to its parent.
pub fn set_parent_for_all(markup_node_id: MarkNodeId, markup_node_pool: &mut SlowPool)
    requires
        markup_node_id < old(markup_node_pool).nodes@.len(),
    ensures
        final(markup_node_pool).nodes@.len() == old(markup_node_pool).nodes@.len(),
        shape_kept(old(markup_node_pool).nodes@, final(markup_node_pool).nodes@),
{
    let children_ids = markup_node_pool.get(markup_node_id).get_children_ids();
    let depth = markup_node_pool.nodes.len();
    let mut i: usize = 0;
    while i < children_ids.len()
        invariant
            markup_node_pool.nodes@.len() == old(markup_node_pool).nodes@.len(),
            i <= children_ids@.len(),
            markup_node_id < markup_node_pool.nodes@.len(),
            shape_kept(old(markup_node_pool).nodes@, markup_node_pool.nodes@),
        decreases children_ids@.len() - i,
    {
        set_parent_for_all_helper(children_ids[i], markup_node_id, markup_node_pool, depth);
        i = i + 1;
    }
}

/// Makes `parent_node_id` the parent of `markup_node_id` and each node below
/// it point to its parent, going at most `depth` levels down (a tree of the
/// pool has fewer levels than nodes). Ids outside the pool are passed over.
pub fn set_parent_for_all_helper(
    markup_node_id: MarkNodeId,
    parent_node_id: MarkNodeId,
    markup_node_pool: &mut SlowPool,
    depth: usize,
)
    ensures
        final(markup_node_pool).nodes@.len() == old(markup_node_pool).nodes@.len(),
        shape_kept(old(markup_node_pool).nodes@, final(markup_node_pool).nodes@),
    decreases depth,
{
    if markup_node_id >= markup_node_pool.nodes.len() {
        return;
    }
    markup_node_pool.set_parent(markup_node_id, parent_node_id);
    if depth == 0 {
        return;
    }
    let children_ids = markup_node_pool.get(markup_node_id).get_children_ids();
    let ghost len = markup_node_pool.nodes@.len();
    let mut i: usize = 0;
    while i < children_ids.len()
        invariant
            markup_node_pool.nodes@.len() == len,
            len == old(markup_node_pool).nodes@.len(),
            markup_node_id < len,
            depth > 0,
            i <= children_ids@.len(),
            shape_kept(old(markup_node_pool).nodes@, markup_node_pool.nodes@),
        decreases children_ids@.len() - i,
    {
        set_parent_for_all_helper(children_ids[i], markup_node_id, markup_node_pool, depth - 1);
        i = i + 1;
    }
}

pub const LEFT_ACCOLADE: &'static str = "{ ";
pub const RIGHT_ACCOLADE: &'static str = " }";
pub const LEFT_SQUARE_BR: &'static str = "[ ";
pub const RIGHT_SQUARE_BR: &'static str = " ]";
pub const COMMA: &'static str = ", ";

/// A text node that is no one's child yet.
fn text_node(content: String, ast_node_id: ExprId, syn_high_style: HighlightStyle) -> (r: MarkupNode)
    ensures
        r is Text,
        content_of(r) == content@,
        ast_id_of(r) == ast_node_id,
        parent_of(r) is None,
{
    MarkupNode::Text {
        content,
        ast_node_id,
        syn_high_style,
        attributes: Attributes::new(),
        parent_id_opt: None,
        newline_at_end: false,
    }
}

/// Adds a header keyword node.
fn header_mn(content: String, ast_node_id: ExprId, mark_node_pool: &mut SlowPool) -> (r: MarkNodeId)
    requires
        old(mark_node_pool).nodes@.len() < usize::MAX,
    ensures
        r == old(mark_node_pool).nodes@.len(),
        final(mark_node_pool).nodes@.len() == old(mark_node_pool).nodes@.len() + 1,
{
    mark_node_pool.add(text_node(content, ast_node_id, HighlightStyle::PackageRelated))
}

/// Adds a text node showing `text` for syntax-tree node `node_id`.
pub fn new_markup_node(text: String, node_id: ExprId, highlight_style: HighlightStyle, markup_node_pool: &mut SlowPool) -> (r: MarkNodeId)
    requires
        old(markup_node_pool).nodes@.len() < usize::MAX,
    ensures
        r == old(markup_node_pool).nodes@.len(),
        final(markup_node_pool).nodes@.len() == old(markup_node_pool).nodes@.len() + 1,
        final(markup_node_pool).nodes@[r as int] is Text,
        content_of(final(markup_node_pool).nodes@[r as int]) == text@,
        ast_id_of(final(markup_node_pool).nodes@[r as int]) == node_id,
        parent_of(final(markup_node_pool).nodes@[r as int]) is None,
        forall|k: int| 0 <= k < old(markup_node_pool).nodes@.len() ==> final(markup_node_pool).nodes@[k] == old(markup_node_pool).nodes@[k],
{
    markup_node_pool.add(text_node(text, node_id, highlight_style))
}

/// Adds a header value node.
fn header_val_mn(content: String, ast_node_id: ExprId, highlight_style: HighlightStyle, mark_node_pool: &mut SlowPool) -> (r: MarkNodeId)
    requires
        old(mark_node_pool).nodes@.len() < usize::MAX,
    ensures
        r == old(mark_node_pool).nodes@.len(),
        final(mark_node_pool).nodes@.len() == old(mark_node_pool).nodes@.len() + 1,
{
    new_markup_node(content, ast_node_id, highlight_style, mark_node_pool)
}

/// Adds a bracket or separator node.
fn punctuation_mn(text: &'static str, ast_node_id: ExprId, mark_node_pool: &mut SlowPool) -> (r: MarkNodeId)
    requires
        old(mark_node_pool).nodes@.len() < usize::MAX,
    ensures
        r == old(mark_node_pool).nodes@.len(),
        final(mark_node_pool).nodes@.len() == old(mark_node_pool).nodes@.len() + 1,
{
    mark_node_pool.add(text_node(text.to_owned(), ast_node_id, HighlightStyle::Bracket))
}

/// The header of an application module.
pub struct AppHeader {
    pub app_name: String,
    pub packages_base: String,
    pub imports: Vec<String>,
    pub provides: Vec<String>,
    pub ast_node_id: ExprId,
}

/// Number of nodes for `n` imports: each import, with a comma between two.
pub open spec fn import_nodes(n: nat) -> nat {
    if n == 0 {
        0
    } else {
        (2 * n - 1) as nat
    }
}

/// Builds the markup of an application header: four lines (`app`,
/// `packages`, `imports`, `provides`) under one nested node, whose id is
/// returned; every node points to its parent.
#[verifier::rlimit(40)]
pub fn header_to_markup(app_header: &AppHeader, mark_node_pool: &mut SlowPool) -> (r: MarkNodeId)
    requires
        app_header.provides@.len() > 0,
        old(mark_node_pool).nodes@.len() + 22 + 2 * app_header.imports@.len() <= usize::MAX,
    ensures
        final(mark_node_pool).nodes@.len() == old(mark_node_pool).nodes@.len() + 20 + import_nodes(
            app_header.imports@.len(),
        ),
        r + 1 == final(mark_node_pool).nodes@.len(),
        final(mark_node_pool).nodes@[r as int] is Nested,
        children_of(final(mark_node_pool).nodes@[r as int]) == seq![
            (r - 4) as usize,
            (r - 3) as usize,
            (r - 2) as usize,
            (r - 1) as usize,
        ],
        newline_of(final(mark_node_pool).nodes@[r as int]),
        ast_id_of(final(mark_node_pool).nodes@[r as int]) == app_header.ast_node_id,
        forall|k: int|
            r - 4 <= k < r ==> (#[trigger] final(mark_node_pool).nodes@[k]) is Nested && newline_of(final(mark_node_pool).nodes@[k])
                && ast_id_of(final(mark_node_pool).nodes@[k]) == app_header.ast_node_id,
{
    let ghost n0 = mark_node_pool.nodes@.len();
    let ast_node_id = app_header.ast_node_id;
    let app_node_id = header_mn("app ".to_owned(), ast_node_id, mark_node_pool);
    let app_name_node_id = header_val_mn(app_header.app_name.clone(), ast_node_id, HighlightStyle::String, mark_node_pool);
    let full_app_node = MarkupNode::Nested {
        ast_node_id,
        children_ids: vec![app_node_id, app_name_node_id],
        parent_id_opt: None,
        newline_at_end: true,
    };
    let packages_node_id = header_mn("    packages ".to_owned(), ast_node_id, mark_node_pool);
    let pack_left_acc_node_id = punctuation_mn(LEFT_ACCOLADE, ast_node_id, mark_node_pool);
    let pack_base_node_id = header_val_mn("base: ".to_owned(), ast_node_id, HighlightStyle::RecordField, mark_node_pool);
    let pack_val_node_id = header_val_mn(app_header.packages_base.clone(), ast_node_id, HighlightStyle::String, mark_node_pool);
    let pack_right_acc_node_id = punctuation_mn(RIGHT_ACCOLADE, ast_node_id, mark_node_pool);
    let full_packages_node = MarkupNode::Nested {
        ast_node_id,
        children_ids: vec![packages_node_id, pack_left_acc_node_id, pack_base_node_id, pack_val_node_id, pack_right_acc_node_id],
        parent_id_opt: None,
        newline_at_end: true,
    };
    let imports_node_id = header_mn("    imports ".to_owned(), ast_node_id, mark_node_pool);
    let imports_left_square_node_id = punctuation_mn(LEFT_SQUARE_BR, ast_node_id, mark_node_pool);
    let mut full_import_children: Vec<MarkNodeId> = vec![imports_node_id, imports_left_square_node_id];
    let nr_of_imports = app_header.imports.len();
    let ghost n1 = mark_node_pool.nodes@.len();
    assert(n1 == n0 + 9);
    let mut indx: usize = 0;
    while indx < nr_of_imports
        invariant
            nr_of_imports == app_header.imports@.len(),
            indx <= nr_of_imports,
            n1 == n0 + 9,
            n0 + 22 + 2 * nr_of_imports <= usize::MAX,
            mark_node_pool.nodes@.len() == n1 + if indx == nr_of_imports {
                import_nodes(indx as nat) as int
            } else {
                2 * indx
            },
        decreases nr_of_imports - indx,
    {
        let import_val_mn_id = header_val_mn(app_header.imports[indx].clone(), ast_node_id, HighlightStyle::Import, mark_node_pool);
        full_import_children.push(import_val_mn_id);
        if indx != nr_of_imports - 1 {
            let comma_id = punctuation_mn(COMMA, ast_node_id, mark_node_pool);
            full_import_children.push(comma_id);
        }
        indx = indx + 1;
    }
    let imports_right_square_node_id = punctuation_mn(RIGHT_SQUARE_BR, ast_node_id, mark_node_pool);
    full_import_children.push(imports_right_square_node_id);
    let full_import_node = MarkupNode::Nested {
        ast_node_id,
        children_ids: full_import_children,
        parent_id_opt: None,
        newline_at_end: true,
    };
    let provides_node_id = header_mn("    provides ".to_owned(), ast_node_id, mark_node_pool);
    let provides_left_square_node_id = punctuation_mn(LEFT_SQUARE_BR, ast_node_id, mark_node_pool);
    let provides_val_node_id = header_val_mn(app_header.provides[0].clone(), ast_node_id, HighlightStyle::Provides, mark_node_pool);
    let provides_right_square_node_id = punctuation_mn(RIGHT_SQUARE_BR, ast_node_id, mark_node_pool);
    let provides_end_node_id = header_mn(" to base".to_owned(), ast_node_id, mark_node_pool);
    let full_provides_node = MarkupNode::Nested {
        ast_node_id,
        children_ids: vec![
            provides_node_id,
            provides_left_square_node_id,
            provides_val_node_id,
            provides_right_square_node_id,
            provides_end_node_id,
        ],
        parent_id_opt: None,
        newline_at_end: true,
    };
    let ghost before_lines = mark_node_pool.nodes@.len();
    let full_app_node_id = mark_node_pool.add(full_app_node);
    let full_packages_node_id = mark_node_pool.add(full_packages_node);
    let full_import_node_id = mark_node_pool.add(full_import_node);
    let full_provides_node_id = mark_node_pool.add(full_provides_node);
    let header_mark_node = MarkupNode::Nested {
        ast_node_id,
        children_ids: vec![full_app_node_id, full_packages_node_id, full_import_node_id, full_provides_node_id],
        parent_id_opt: None,
        newline_at_end: true,
    };
    let header_mn_id = mark_node_pool.add(header_mark_node);
    proof {
        assert forall|k: int| header_mn_id - 4 <= k <= header_mn_id implies (#[trigger] mark_node_pool.nodes@[k]) is Nested && newline_of(mark_node_pool.nodes@[k])
            && ast_id_of(mark_node_pool.nodes@[k]) == ast_node_id by {
            assert(k >= before_lines);
        }
        assert(children_of(mark_node_pool.nodes@[header_mn_id as int]) =~= seq![
            (header_mn_id - 4) as usize,
            (header_mn_id - 3) as usize,
            (header_mn_id - 2) as usize,
            (header_mn_id - 1) as usize,
        ]);
    }
    set_parent_for_all(header_mn_id, mark_node_pool);
    header_mn_id
}

} // verus!
