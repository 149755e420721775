//! The tree's data shapes: attribute values, attribute lists, element tags,
//! and the node tree itself, together with their ghost views and the widget
//! expansion pass that rewrites composite nodes into concrete subtrees.

use vstd::prelude::*;
use vstd::string::StringExecFns;

verus! {

/// The value of one attribute entry: either a text attribute or a boolean flag.
#[derive(Debug, Clone)]
pub enum ParamValue {
    TextValue(String),
    Flag(bool),
}

/// Ghost counterpart of `ParamValue`, with text as a character sequence.
pub enum ParamV {
    Text(Seq<char>),
    Flag(bool),
}

impl View for ParamValue {
    type V = ParamV;

    open spec fn view(&self) -> ParamV {
        match self {
            ParamValue::TextValue(s) => ParamV::Text(s@),
            ParamValue::Flag(b) => ParamV::Flag(*b),
        }
    }
}

impl ParamValue {
    /// Builds a text value from a string slice.
    pub fn text(s: &str) -> (r: ParamValue)
        ensures
            r@ == ParamV::Text(s@),
    {
        ParamValue::TextValue(String::from_str(s))
    }

    /// Returns a value equal to this one.
    pub fn duplicate(&self) -> (r: ParamValue)
        ensures
            r == *self,
    {
        match self {
            ParamValue::TextValue(s) => ParamValue::TextValue(s.clone()),
            ParamValue::Flag(b) => ParamValue::Flag(*b),
        }
    }

    /// Compares two values.
    pub fn value_eq(&self, other: &ParamValue) -> (r: bool)
        ensures
            r == (self@ == other@),
    {
        match (self, other) {
            (ParamValue::TextValue(a), ParamValue::TextValue(b)) => *a == *b,
            (ParamValue::Flag(a), ParamValue::Flag(b)) => *a == *b,
            _ => false,
        }
    }
}

impl From<String> for ParamValue {
    fn from(v: String) -> ParamValue {
        ParamValue::TextValue(v)
    }
}

impl vstd::std_specs::convert::FromSpecImpl<String> for ParamValue {
    open spec fn obeys_from_spec() -> bool {
        true
    }

    open spec fn from_spec(v: String) -> ParamValue {
        ParamValue::TextValue(v)
    }
}

impl From<bool> for ParamValue {
    fn from(v: bool) -> ParamValue {
        ParamValue::Flag(v)
    }
}

impl vstd::std_specs::convert::FromSpecImpl<bool> for ParamValue {
    open spec fn obeys_from_spec() -> bool {
        true
    }

    open spec fn from_spec(v: bool) -> ParamValue {
        ParamValue::Flag(v)
    }
}

/// An attribute list: an association list from key to value.  Keys are
/// unique; iteration order is the insertion order and carries no meaning.
#[derive(Debug, Clone)]
pub struct Params {
    pub params: Vec<(String, ParamValue)>,
}

impl View for Params {
    type V = Seq<(Seq<char>, ParamV)>;

    open spec fn view(&self) -> Seq<(Seq<char>, ParamV)> {
        Seq::new(self.params@.len(), |i: int| (self.params@[i].0@, self.params@[i].1@))
    }
}

/// Keys of an attribute list are pairwise distinct.
pub open spec fn params_wf(ps: Seq<(Seq<char>, ParamV)>) -> bool {
    forall|i: int, j: int| 0 <= i < j < ps.len() ==> ps[i].0 != ps[j].0
}

/// Index of the first entry with key `k`, or -1 when absent.
pub open spec fn param_index(ps: Seq<(Seq<char>, ParamV)>, k: Seq<char>) -> int
    decreases ps.len(),
{
    if ps.len() == 0 {
        -1
    } else if ps[0].0 == k {
        0
    } else {
        let r = param_index(ps.drop_first(), k);
        if r == -1 {
            -1
        } else {
            r + 1
        }
    }
}

/// The value stored under key `k`, if any.
pub open spec fn param_get(ps: Seq<(Seq<char>, ParamV)>, k: Seq<char>) -> Option<ParamV> {
    if param_index(ps, k) == -1 {
        None
    } else {
        Some(ps[param_index(ps, k)].1)
    }
}

/// `param_index` finds the first entry with the sought key, and -1 means
/// that no entry has it.
pub proof fn lemma_param_index(ps: Seq<(Seq<char>, ParamV)>, k: Seq<char>)
    ensures
        param_index(ps, k) == -1 ==> (forall|i: int| 0 <= i < ps.len() ==> ps[i].0 != k),
        param_index(ps, k) != -1 ==> {
            let r = param_index(ps, k);
            &&& 0 <= r < ps.len()
            &&& ps[r].0 == k
            &&& forall|i: int| 0 <= i < r ==> ps[i].0 != k
        },
    decreases ps.len(),
{
    if ps.len() > 0 && ps[0].0 != k {
        lemma_param_index(ps.drop_first(), k);
        assert(forall|i: int| 1 <= i < ps.len() ==> ps[i] == ps.drop_first()[i - 1]);
    }
}

impl Params {
    /// An empty attribute list.
    pub fn new() -> (r: Params)
        ensures
            r@ == Seq::<(Seq<char>, ParamV)>::empty(),
            params_wf(r@),
    {
        let r = Params { params: Vec::new() };
        proof {
            assert(r@ =~= Seq::<(Seq<char>, ParamV)>::empty());
        }
        r
    }

    /// Index of the entry holding `key`, if any.
    pub fn find(&self, key: &String) -> (r: Option<usize>)
        ensures
            param_index(self@, key@) == -1 <==> r is None,
            r matches Some(i) ==> param_index(self@, key@) == i as int,
    {
        proof {
            lemma_param_index(self@, key@);
        }
        let n = self.params.len();
        let mut i: usize = 0;
        while i < n
            invariant
                n == self.params.len(),
                0 <= i <= n,
                forall|j: int| 0 <= j < i ==> self@[j].0 != key@,
                param_index(self@, key@) == -1
                    || i as int <= param_index(self@, key@) < self@.len(),
            decreases n - i,
        {
            proof {
                lemma_param_index(self@, key@);
            }
            if self.params[i].0 == *key {
                proof {
                    assert(self@[i as int].0 == key@);
                    assert(param_index(self@, key@) != -1);
                    assert(param_index(self@, key@) == i as int);
                }
                return Some(i);
            }
            i += 1;
        }
        None
    }

    /// Stores `value` under `key`: replaces the entry holding the key, or
    /// appends a new entry when the key is fresh.  Uniqueness of keys is
    /// preserved.
    pub fn insert(&mut self, key: String, value: ParamValue)
        ensures
            ({
                let i = param_index(old(self)@, key@);
                &&& i == -1 ==> final(self)@ == old(self)@.push((key@, value@))
                &&& i != -1 ==> final(self)@ == old(self)@.update(i, (key@, value@))
            }),
            params_wf(old(self)@) ==> params_wf(final(self)@),
    {
        proof {
            lemma_param_index(self@, key@);
        }
        match self.find(&key) {
            Some(i) => {
                self.params[i] = (key, value);
                proof {
                    let gi = param_index(old(self)@, key@);
                    assert(self@ =~= old(self)@.update(gi, (key@, value@)));
                }
            }
            None => {
                self.params.push((key, value));
                proof {
                    assert(self@ =~= old(self)@.push((key@, value@)));
                }
            }
        }
    }

    /// Compares two attribute lists entry by entry.
    pub fn list_eq(&self, other: &Params) -> (r: bool)
        ensures
            r == (self@ == other@),
    {
        let n = self.params.len();
        if n != other.params.len() {
            proof {
                assert(self@.len() != other@.len());
            }
            return false;
        }
        let mut i: usize = 0;
        while i < n
            invariant
                n == self.params.len(),
                n == other.params.len(),
                0 <= i <= n,
                forall|j: int| 0 <= j < i ==> self@[j] == other@[j],
            decreases n - i,
        {
            if !(self.params[i].0 == other.params[i].0) {
                proof {
                    assert(self@[i as int].0 != other@[i as int].0);
                }
                return false;
            }
            if !self.params[i].1.value_eq(&other.params[i].1) {
                proof {
                    assert(self@[i as int].1 != other@[i as int].1);
                }
                return false;
            }
            i += 1;
        }
        proof {
            assert(self@ =~= other@);
        }
        true
    }

    /// Returns an attribute list equal to this one.
    pub fn duplicate(&self) -> (r: Params)
        ensures
            r@ == self@,
    {
        let n = self.params.len();
        let mut out: Vec<(String, ParamValue)> = Vec::new();
        let mut i: usize = 0;
        while i < n
            invariant
                n == self.params.len(),
                0 <= i <= n,
                out@.len() == i,
                forall|j: int| 0 <= j < i ==> out@[j] == self.params@[j],
            decreases n - i,
        {
            let key = self.params[i].0.clone();
            let value = self.params[i].1.duplicate();
            out.push((key, value));
            i += 1;
        }
        let r = Params { params: out };
        proof {
            assert(r@ =~= self@);
        }
        r
    }
}

/// The concrete element tags this library knows.
#[derive(Debug, Clone, Copy, PartialEq, Eq, Structural)]
pub enum ElemTag {
    Div,
    Span,
    Ul,
    Li,
}

/// The kind of a concrete node: a text leaf or an element with a tag.
#[derive(Debug, Clone, Copy, PartialEq, Eq, Structural)]
pub enum NodeKind {
    Text,
    Element(ElemTag),
}

/// The table of element kinds: numeric id, type name, and tag name.
pub fn html_nodes_iter() -> (r: Vec<(usize, &'static str, &'static str)>)
    ensures
        r@.len() == 4,
        r@[0].0 == 0usize && r@[1].0 == 1usize && r@[2].0 == 2usize && r@[3].0 == 3usize,
        r@[0].1@ == "Div"@ && r@[0].2@ == "div"@,
        r@[1].1@ == "Span"@ && r@[1].2@ == "span"@,
        r@[2].1@ == "Ul"@ && r@[2].2@ == "ul"@,
        r@[3].1@ == "Li"@ && r@[3].2@ == "li"@,
{
    let mut r: Vec<(usize, &'static str, &'static str)> = Vec::new();
    r.push((0, "Div", "div"));
    r.push((1, "Span", "span"));
    r.push((2, "Ul", "ul"));
    r.push((3, "Li", "li"));
    r
}

/// A node of the tree: a text leaf, an element with keyed children, or an
/// opaque composite node carrying the concrete subtree it renders to.
#[derive(Debug)]
pub enum Node {
    Text { content: String },
    Element { tag: ElemTag, params: Params, children: Vec<(u64, Node)> },
    Widget { body: Box<Node> },
}

/// Ghost counterpart of `Node`.
pub enum NodeV {
    Text { content: Seq<char> },
    Element { tag: ElemTag, params: Seq<(Seq<char>, ParamV)>, children: Seq<(u64, NodeV)> },
    Widget { body: Box<NodeV> },
}

/// View of a keyed child list.
pub open spec fn children_view(s: Seq<(u64, Node)>) -> Seq<(u64, NodeV)>
    decreases s,
{
    if s.len() == 0 {
        Seq::empty()
    } else {
        children_view(s.drop_last()).push((s.last().0, node_view(s.last().1)))
    }
}

/// View of a node.
pub open spec fn node_view(n: Node) -> NodeV
    decreases n,
{
    match n {
        Node::Text { content } => NodeV::Text { content: content@ },
        Node::Element { tag, params, children } => NodeV::Element {
            tag,
            params: params@,
            children: children_view(children@),
        },
        Node::Widget { body } => NodeV::Widget { body: Box::new(node_view(*body)) },
    }
}

impl View for Node {
    type V = NodeV;

    open spec fn view(&self) -> NodeV {
        node_view(*self)
    }
}

/// `children_view` maps the list pointwise.
pub proof fn lemma_children_view(s: Seq<(u64, Node)>)
    ensures
        children_view(s).len() == s.len(),
        forall|i: int| 0 <= i < s.len()
            ==> children_view(s)[i] == (s[i].0, node_view(s[i].1)),
    decreases s,
{
    if s.len() > 0 {
        lemma_children_view(s.drop_last());
    }
}

/// Keys of a keyed child list are pairwise distinct.
pub open spec fn keys_unique(s: Seq<(u64, NodeV)>) -> bool {
    forall|i: int, j: int| 0 <= i < j < s.len() ==> s[i].0 != s[j].0
}

/// Well-formed tree: unique attribute keys and unique sibling keys, at
/// every level.
pub open spec fn node_wf(n: NodeV) -> bool
    decreases n,
{
    match n {
        NodeV::Text { .. } => true,
        NodeV::Element { params, children, .. } => {
            &&& params_wf(params)
            &&& keys_unique(children)
            &&& wf_children(children)
        }
        NodeV::Widget { body } => node_wf(*body),
    }
}

/// Every member of a keyed child list is well formed.
pub open spec fn wf_children(s: Seq<(u64, NodeV)>) -> bool
    decreases s,
{
    s.len() == 0 || (wf_children(s.drop_last()) && node_wf(s.last().1))
}

/// `wf_children` holds exactly when each member is well formed.
pub proof fn lemma_wf_children(s: Seq<(u64, NodeV)>)
    ensures
        wf_children(s) <==> (forall|i: int| 0 <= i < s.len() ==> #[trigger] node_wf(s[i].1)),
    decreases s,
{
    if s.len() > 0 {
        let dl = s.drop_last();
        lemma_wf_children(dl);
        assert(forall|i: int| 0 <= i < dl.len() ==> dl[i] == s[i]);
        if wf_children(s) {
            assert forall|i: int| 0 <= i < s.len() implies #[trigger] node_wf(s[i].1) by {
                if i < s.len() - 1 {
                    assert(node_wf(dl[i].1));
                } else {
                    assert(s[i] == s.last());
                }
            }
        }
        if forall|i: int| 0 <= i < s.len() ==> #[trigger] node_wf(s[i].1) {
            assert forall|i: int| 0 <= i < dl.len() implies #[trigger] node_wf(dl[i].1) by {
                assert(dl[i] == s[i]);
            }
            assert(node_wf(s[s.len() - 1].1));
            assert(s.last() == s[s.len() - 1]);
            assert(wf_children(s));
        }
    }
}

/// A concrete tree holds no composite node.
pub open spec fn concrete(n: NodeV) -> bool
    decreases n,
{
    match n {
        NodeV::Text { .. } => true,
        NodeV::Element { children, .. } => concrete_children(children),
        NodeV::Widget { .. } => false,
    }
}

/// Every member of a keyed child list is concrete.
pub open spec fn concrete_children(s: Seq<(u64, NodeV)>) -> bool
    decreases s,
{
    s.len() == 0 || (concrete_children(s.drop_last()) && concrete(s.last().1))
}

/// `concrete_children` holds exactly when each member is concrete.
pub proof fn lemma_concrete_children(s: Seq<(u64, NodeV)>)
    ensures
        concrete_children(s) <==> (forall|i: int| 0 <= i < s.len() ==> #[trigger] concrete(s[i].1)),
    decreases s,
{
    if s.len() > 0 {
        let dl = s.drop_last();
        lemma_concrete_children(dl);
        assert(forall|i: int| 0 <= i < dl.len() ==> dl[i] == s[i]);
        if concrete_children(s) {
            assert forall|i: int| 0 <= i < s.len() implies #[trigger] concrete(s[i].1) by {
                if i < s.len() - 1 {
                    assert(concrete(dl[i].1));
                } else {
                    assert(s[i] == s.last());
                }
            }
        }
        if forall|i: int| 0 <= i < s.len() ==> #[trigger] concrete(s[i].1) {
            assert forall|i: int| 0 <= i < dl.len() implies #[trigger] concrete(dl[i].1) by {
                assert(dl[i] == s[i]);
            }
            assert(concrete(s[s.len() - 1].1));
            assert(s.last() == s[s.len() - 1]);
            assert(concrete_children(s));
        }
    }
}

/// Number of nodes of the concrete tree a node stands for.
pub open spec fn count_v(n: NodeV) -> nat
    decreases n,
{
    match n {
        NodeV::Text { .. } => 1,
        NodeV::Element { children, .. } => 1 + count_children_from(children, 0),
        NodeV::Widget { body } => count_v(*body),
    }
}

/// Total node count of a keyed child list, from position `i` on.
pub open spec fn count_children_from(s: Seq<(u64, NodeV)>, i: int) -> nat
    decreases s, s.len() - i,
{
    if i < 0 || i >= s.len() {
        0
    } else {
        count_v(s[i].1) + count_children_from(s, i + 1)
    }
}

/// Every tree has at least one node.
pub proof fn lemma_count_pos(n: NodeV)
    ensures
        count_v(n) >= 1,
    decreases n,
{
    match n {
        NodeV::Widget { body } => lemma_count_pos(*body),
        _ => {}
    }
}

/// The tail count shrinks by exactly the count of the member passed.
pub proof fn lemma_count_children_step(s: Seq<(u64, NodeV)>, i: int)
    requires
        0 <= i < s.len(),
    ensures
        count_children_from(s, i) == count_v(s[i].1) + count_children_from(s, i + 1),
        count_v(s[i].1) >= 1,
        count_children_from(s, i + 1) >= 0,
{
    lemma_count_pos(s[i].1);
}

/// The kind of a node; composite nodes have none.
pub open spec fn kind_v(n: NodeV) -> Option<NodeKind> {
    match n {
        NodeV::Text { .. } => Some(NodeKind::Text),
        NodeV::Element { tag, .. } => Some(NodeKind::Element(tag)),
        NodeV::Widget { .. } => None,
    }
}

/// Index of the first child with key `k`, or -1 when absent.
pub open spec fn key_index(s: Seq<(u64, NodeV)>, k: u64) -> int
    decreases s,
{
    if s.len() == 0 {
        -1
    } else if s[0].0 == k {
        0
    } else {
        let r = key_index(s.drop_first(), k);
        if r == -1 {
            -1
        } else {
            r + 1
        }
    }
}

/// `key_index` finds the first child with the sought key, and -1 means
/// that no child has it.
pub proof fn lemma_key_index(s: Seq<(u64, NodeV)>, k: u64)
    ensures
        key_index(s, k) == -1 ==> (forall|i: int| 0 <= i < s.len() ==> s[i].0 != k),
        key_index(s, k) != -1 ==> {
            let r = key_index(s, k);
            &&& 0 <= r < s.len()
            &&& s[r].0 == k
            &&& forall|i: int| 0 <= i < r ==> s[i].0 != k
        },
    decreases s,
{
    if s.len() > 0 && s[0].0 != k {
        lemma_key_index(s.drop_first(), k);
        assert(forall|i: int| 1 <= i < s.len() ==> s[i] == s.drop_first()[i - 1]);
    }
}

/// Index of the first child with key `k` in an executable child list.
pub fn find_key(children: &Vec<(u64, Node)>, k: u64) -> (r: Option<usize>)
    ensures
        key_index(children_view(children@), k) == -1 <==> r is None,
        r matches Some(i) ==> key_index(children_view(children@), k) == i as int,
{
    proof {
        lemma_children_view(children@);
        lemma_key_index(children_view(children@), k);
    }
    let ghost cv = children_view(children@);
    let n = children.len();
    let mut i: usize = 0;
    while i < n
        invariant
            n == children.len(),
            cv == children_view(children@),
            cv.len() == n,
            forall|j: int| 0 <= j < cv.len() ==> cv[j].0 == children@[j].0,
            0 <= i <= n,
            forall|j: int| 0 <= j < i ==> cv[j].0 != k,
            key_index(cv, k) == -1 || i as int <= key_index(cv, k) < cv.len(),
        decreases n - i,
    {
        proof {
            lemma_key_index(cv, k);
        }
        if children[i].0 == k {
            proof {
                assert(cv[i as int].0 == k);
                assert(key_index(cv, k) != -1);
                assert(key_index(cv, k) == i as int);
            }
            return Some(i);
        }
        i += 1;
    }
    None
}

/// The node a key path leads to within one snapshot, if any: each segment
/// picks the child with that key.
pub open spec fn node_at(t: NodeV, r: Seq<u64>) -> Option<NodeV>
    decreases r.len(),
{
    if r.len() == 0 {
        Some(t)
    } else {
        match t {
            NodeV::Element { children, .. } => {
                let j = key_index(children, r[0]);
                if j == -1 {
                    None
                } else {
                    node_at(children[j].1, r.drop_first())
                }
            }
            _ => None,
        }
    }
}

/// Widget expansion of a keyed child list.
pub open spec fn expand_children_v(s: Seq<(u64, NodeV)>) -> Seq<(u64, NodeV)>
    decreases s,
{
    if s.len() == 0 {
        Seq::empty()
    } else {
        expand_children_v(s.drop_last()).push((s.last().0, expand_v(s.last().1)))
    }
}

/// Widget expansion: composite nodes are replaced by the concrete subtree
/// they render to; text and element nodes keep their shape.
pub open spec fn expand_v(n: NodeV) -> NodeV
    decreases n,
{
    match n {
        NodeV::Text { content } => NodeV::Text { content },
        NodeV::Element { tag, params, children } => NodeV::Element {
            tag,
            params,
            children: expand_children_v(children),
        },
        NodeV::Widget { body } => expand_v(*body),
    }
}

/// `expand_children_v` maps the list pointwise.
pub proof fn lemma_expand_children_v(s: Seq<(u64, NodeV)>)
    ensures
        expand_children_v(s).len() == s.len(),
        forall|i: int| 0 <= i < s.len()
            ==> expand_children_v(s)[i] == (s[i].0, expand_v(s[i].1)),
    decreases s,
{
    if s.len() > 0 {
        lemma_expand_children_v(s.drop_last());
    }
}

/// Expansion yields a concrete tree.
pub proof fn lemma_expand_concrete(n: NodeV)
    ensures
        concrete(expand_v(n)),
    decreases n,
{
    match n {
        NodeV::Text { .. } => {
            assert(concrete(expand_v(n)));
        }
        NodeV::Element { tag, params, children } => {
            lemma_expand_children_v(children);
            lemma_concrete_children(expand_children_v(children));
            assert forall|i: int| 0 <= i < expand_children_v(children).len()
                implies #[trigger] concrete(expand_children_v(children)[i].1) by {
                lemma_expand_concrete(children[i].1);
            }
            assert(concrete(expand_v(n)));
        }
        NodeV::Widget { body } => {
            lemma_expand_concrete(*body);
            assert(concrete(expand_v(n)));
        }
    }
}

/// Builds the widget expansion of `curr`.  The `last` argument names the
/// same-path node of the previous tree; the result does not depend on it,
/// which this contract states explicitly.
pub fn expand_widgets(curr: &Node, last: Option<&Node>) -> (r: Node)
    ensures
        r@ == expand_v(curr@),
    decreases curr, 0int,
{
    match curr {
        Node::Text { content } => Node::Text { content: content.clone() },
        Node::Element { tag, params, children } => {
            let expanded = expand_child_list(children, 0);
            proof {
                assert(children_view(children@).skip(0) =~= children_view(children@));
            }
            Node::Element { tag: *tag, params: params.duplicate(), children: expanded }
        }
        Node::Widget { body } => expand_widgets(body, last),
    }
}

/// Expands the children of one element, from position `i` on.
fn expand_child_list(children: &Vec<(u64, Node)>, i: usize) -> (r: Vec<(u64, Node)>)
    requires
        i <= children.len(),
    ensures
        children_view(r@) == expand_children_v(children_view(children@).skip(i as int)),
    decreases children, children@.len() - i,
{
    proof {
        lemma_children_view(children@);
    }
    if i == children.len() {
        let r: Vec<(u64, Node)> = Vec::new();
        proof {
            assert(children_view(children@).skip(i as int) =~= Seq::<(u64, NodeV)>::empty());
            assert(children_view(r@) =~= Seq::<(u64, NodeV)>::empty());
        }
        r
    } else {
        proof {
            assert(decreases_to!(children => children@[i as int].1));
        }
        let head = expand_widgets(&children[i].1, None);
        let key = children[i].0;
        let mut rest = expand_child_list(children, i + 1);
        let ghost rest0 = rest@;
        rest.insert(0, (key, head));
        proof {
            let cv = children_view(children@);
            lemma_children_view(rest0);
            lemma_children_view(rest@);
            lemma_expand_children_v(cv.skip(i as int));
            lemma_expand_children_v(cv.skip(i as int + 1));
            assert forall|j: int| 0 <= j < rest@.len()
                implies children_view(rest@)[j] == expand_children_v(cv.skip(i as int))[j] by {
                if j > 0 {
                    assert(rest@[j] == rest0[j - 1]);
                    assert(children_view(rest0)[j - 1]
                        == expand_children_v(cv.skip(i as int + 1))[j - 1]);
                    assert(cv.skip(i as int + 1)[j - 1] == cv[i as int + j]);
                    assert(cv.skip(i as int)[j] == cv[i as int + j]);
                } else {
                    assert(rest@[0] == (key, head));
                    assert(cv.skip(i as int)[0] == cv[i as int]);
                }
            }
            assert(children_view(rest@) =~= expand_children_v(cv.skip(i as int)));
        }
        rest
    }
}

} // verus!

