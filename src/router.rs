use vstd::prelude::*;
use vstd::utf8::encode_utf8;

verus! {

/// A handler registered under a path.
pub trait Endpoint<T, R>: Send + Sync {
    /// Whether this endpoint serves only paths matched to their last segment:
    /// what `use_strict_path_matching` returns.
    spec fn strict(&self) -> bool;

    /// `r` is an answer this endpoint may give to `data` with this path
    /// overload. An endpoint that says nothing of its answers keeps the
    /// default, which holds of every answer.
    open spec fn answers(&self, data: T, path_overload: Seq<Seq<char>>, r: R) -> bool {
        true
    }

    /// Strict matching only accepts a path whose every segment was matched.
    /// A non-strict endpoint also serves paths that only start with its own.
    fn use_strict_path_matching(&self) -> (r: bool)
        ensures
            r == self.strict(),
    ;

    fn process(&self, info: RoutedInfo<T>) -> (r: R)
        ensures
            self.answers(info.data, info.path_overload@.map_values(|x: String| x@), r),
    ;
}

/// What the router hands to an endpoint.
#[derive(Debug)]
pub struct RoutedInfo<T> {
    pub data: T,
    /// Empty unless a non-strict endpoint served a longer path: then the
    /// segments from the last matched one on.
    pub path_overload: Vec<String>,
}

/// Splitting text at every '/', keeping the empty pieces: one more piece
/// than there are slashes.
pub open spec fn split_path(s: Seq<char>) -> Seq<Seq<char>>
    decreases s.len(),
{
    if s.len() == 0 {
        seq![Seq::<char>::empty()]
    } else {
        let prev = split_path(s.drop_last());
        if s.last() == '/' {
            prev.push(Seq::<char>::empty())
        } else {
            prev.update(prev.len() - 1, prev.last().push(s.last()))
        }
    }
}

/// `q` is `p` or the start of it.
pub open spec fn is_prefix(q: Seq<Seq<char>>, p: Seq<Seq<char>>) -> bool {
    q.len() <= p.len() && p.take(q.len() as int) == q
}

/// The abstract content of a router: the endpoint stored at each exact path,
/// and the paths for which a node exists (every start of every path ever added).
pub struct RouteTable<E> {
    pub endpoints: Map<Seq<Seq<char>>, E>,
    pub nodes: Set<Seq<Seq<char>>>,
}

impl<E> RouteTable<E> {
    pub open spec fn empty() -> RouteTable<E> {
        RouteTable { endpoints: Map::empty(), nodes: set![Seq::<Seq<char>>::empty()] }
    }

    /// Adding an endpoint at `p`: it replaces what was there, and every start
    /// of `p` gets a node.
    pub open spec fn insert(self, p: Seq<Seq<char>>, e: E) -> RouteTable<E> {
        RouteTable {
            endpoints: self.endpoints.insert(p, e),
            nodes: self.nodes.union(Set::new(|q: Seq<Seq<char>>| is_prefix(q, p))),
        }
    }

    pub open spec fn wf(self) -> bool {
        &&& self.nodes.contains(Seq::<Seq<char>>::empty())
        &&& forall|q: Seq<Seq<char>>, n: int|
            #![trigger self.nodes.contains(q), q.take(n)]
            self.nodes.contains(q) && 0 <= n <= q.len() ==> self.nodes.contains(q.take(n))
        &&& forall|q: Seq<Seq<char>>| #[trigger]
            self.endpoints.contains_key(q) ==> self.nodes.contains(q)
    }

    /// How many leading segments of `p` a lookup consumes, going on from `j`
    /// while the next segment leads to a node.
    pub open spec fn walk(self, p: Seq<Seq<char>>, j: nat) -> nat
        decreases p.len() - j,
    {
        if j < p.len() && self.nodes.contains(p.take((j + 1) as int)) {
            self.walk(p, j + 1)
        } else {
            j
        }
    }

    /// How many leading segments of `p` a lookup consumes.
    pub open spec fn depth(self, p: Seq<Seq<char>>) -> nat {
        self.walk(p, 0)
    }

    /// The endpoint at the node where a lookup of `p` stops.
    pub open spec fn reached(self, p: Seq<Seq<char>>) -> Option<E> {
        let q = p.take(self.depth(p) as int);
        if self.endpoints.contains_key(q) {
            Some(self.endpoints[q])
        } else {
            None
        }
    }
}

/// The path overload an endpoint receives, after `depth` of the segments of
/// `p` were matched, given its strictness; `None` where it is not invoked.
pub open spec fn overload_of(p: Seq<Seq<char>>, depth: nat, strict: bool) -> Option<Seq<Seq<char>>> {
    if strict {
        if depth == p.len() {
            Some(Seq::empty())
        } else {
            None
        }
    } else if depth > 0 {
        Some(p.subrange(depth - 1, p.len() as int))
    } else {
        Some(Seq::empty())
    }
}

/// The bytes of a node's child keys, each followed by a zero byte.
pub open spec fn join_keys(ks: Seq<Seq<u8>>) -> Seq<u8>
    decreases ks.len(),
{
    if ks.len() == 0 {
        Seq::empty()
    } else {
        join_keys(ks.drop_last()) + ks.last().push(0u8)
    }
}

/// Where the bytes of the `c`-th key start.
pub open spec fn key_start(ks: Seq<Seq<u8>>, c: int) -> int {
    join_keys(ks.take(c)).len() as int
}

pub open spec fn zero_free(k: Seq<u8>) -> bool {
    forall|j: int| 0 <= j < k.len() ==> k[j] != 0u8
}

proof fn lemma_join_grows(ks: Seq<Seq<u8>>, c: int, d: int)
    requires
        0 <= c <= d <= ks.len(),
    ensures
        join_keys(ks.take(c)).len() <= join_keys(ks.take(d)).len(),
        forall|x: int|
            0 <= x < join_keys(ks.take(c)).len() ==> join_keys(ks.take(d))[x] == join_keys(
                ks.take(c),
            )[x],
    decreases d - c,
{
    if c < d {
        lemma_join_grows(ks, c, d - 1);
        assert(ks.take(d).drop_last() =~= ks.take(d - 1));
    }
}

proof fn lemma_key_layout(ks: Seq<Seq<u8>>, c: int)
    requires
        0 <= c < ks.len(),
    ensures
        key_start(ks, c + 1) == key_start(ks, c) + ks[c].len() + 1,
        key_start(ks, c + 1) <= join_keys(ks).len(),
        forall|j: int|
            0 <= j < ks[c].len() ==> #[trigger] join_keys(ks)[key_start(ks, c) + j] == ks[c][j],
        join_keys(ks)[key_start(ks, c) + ks[c].len()] == 0u8,
{
    assert(ks.take(c + 1).drop_last() =~= ks.take(c));
    assert(ks.take(ks.len() as int) =~= ks);
    lemma_join_grows(ks, c + 1, ks.len() as int);
    let pre = join_keys(ks.take(c));
    assert(join_keys(ks.take(c + 1)) == pre + ks[c].push(0u8));
    assert forall|j: int| 0 <= j < ks[c].len() implies #[trigger] join_keys(ks)[key_start(ks, c)
        + j] == ks[c][j] by {
        assert(join_keys(ks.take(c + 1))[pre.len() + j] == ks[c][j]);
    }
    assert(join_keys(ks.take(c + 1))[(pre.len() + ks[c].len()) as int] == 0u8);
}

proof fn lemma_key_start_end(ks: Seq<Seq<u8>>)
    ensures
        key_start(ks, ks.len() as int) == join_keys(ks).len(),
        key_start(ks, 0) == 0,
{
    assert(ks.take(ks.len() as int) =~= ks);
    assert(ks.take(0) =~= Seq::<Seq<u8>>::empty());
}

/// One node of the tree: its endpoint, and its children with their keys.
struct RouteNode<E> {
    endpoint: Option<E>,
    /// The children's keys, each followed by a zero byte.
    matches: Vec<u8>,
    routers: Vec<RouteNode<E>>,
    keys: Ghost<Seq<Seq<u8>>>,
}

impl<E> RouteNode<E> {
    /// `matches` holds the keys of the children, in order, each free of zero
    /// bytes and followed by one; no key stands twice; the children are well
    /// formed too.
    spec fn wf(&self) -> bool
        decreases self,
    {
        &&& self.keys@.len() == self.routers@.len()
        &&& self.matches@ == join_keys(self.keys@)
        &&& forall|i: int| 0 <= i < self.keys@.len() ==> zero_free(#[trigger] self.keys@[i])
        &&& forall|i: int, j: int|
            0 <= i < self.keys@.len() && 0 <= j < self.keys@.len() && i != j
                ==> #[trigger] self.keys@[i] != #[trigger] self.keys@[j]
        &&& forall|i: int| 0 <= i < self.routers@.len() ==> (#[trigger] self.routers@[i]).wf()
    }

    fn new() -> (r: Self)
        ensures
            r.wf(),
            r.endpoint is None,
            r.keys@.len() == 0,
    {
        RouteNode { endpoint: None, matches: Vec::new(), routers: Vec::new(), keys: Ghost(Seq::empty()) }
    }

    /// The index of the child whose key is `path`, scanning `matches`.
    fn find_path_part_match(&self, path: &[u8]) -> (r: Option<usize>)
        requires
            self.wf(),
        ensures
            match r {
                Some(i) => i < self.keys@.len() && self.keys@[i as int] == path@,
                None => forall|i: int| 0 <= i < self.keys@.len() ==> self.keys@[i] != path@,
            },
    {
        let ghost ks = self.keys@;
        proof {
            lemma_key_start_end(ks);
        }
        let children = self.routers.len();
        let mut current_match_index: usize = 0;
        let mut current_path_index: usize = 0;
        let mut current_path: usize = 0;
        while current_match_index < self.matches.len()
            invariant
                self.wf(),
                children == ks.len(),
                ks == self.keys@,
                self.matches@ == join_keys(ks),
                key_start(ks, ks.len() as int) == self.matches@.len(),
                current_path <= ks.len(),
                current_match_index == key_start(ks, current_path as int) + current_path_index,
                current_path == ks.len() ==> current_path_index == 0,
                current_path < ks.len() ==> current_path_index <= ks[current_path as int].len(),
                current_path_index <= path@.len(),
                current_path < ks.len() ==> ks[current_path as int].take(
                    current_path_index as int,
                ) == path@.take(current_path_index as int),
                forall|j: int| 0 <= j < current_path ==> ks[j] != path@,
            decreases self.matches@.len() - current_match_index,
        {
            let c = current_path;
            proof {
                assert(c < ks.len());
                lemma_key_layout(ks, c as int);
            }
            let byte_to_match = self.matches[current_match_index];
            if byte_to_match == 0 {
                proof {
                    if current_path_index < ks[c as int].len() {
                        assert(zero_free(ks[c as int]));
                        assert(join_keys(ks)[key_start(ks, c as int) + current_path_index] == ks[c as int][current_path_index as int]);
                    }
                }
                if current_path_index == path.len() {
                    assert(ks[c as int] =~= path@) by {
                        assert(ks[c as int] =~= ks[c as int].take(current_path_index as int));
                        assert(path@ =~= path@.take(current_path_index as int));
                    }
                    return Some(c);
                }
                current_match_index += 1;
                current_path_index = 0;
                current_path += 1;
            } else {
                proof {
                    if current_path_index == ks[c as int].len() {
                        assert(false);
                    }
                }
                if current_path_index < path.len() && byte_to_match == path[current_path_index] {
                    assert(ks[c as int].take(current_path_index + 1) =~= path@.take(current_path_index + 1)) by {
                        assert(ks[c as int].take(current_path_index as int).push(ks[c as int][current_path_index as int]) =~= ks[c as int].take(current_path_index + 1));
                        assert(path@.take(current_path_index as int).push(path@[current_path_index as int]) =~= path@.take(current_path_index + 1));
                    }
                    current_match_index += 1;
                    current_path_index += 1;
                } else {
                    assert(ks[c as int] != path@) by {
                        if ks[c as int] == path@ {
                            assert(ks[c as int][current_path_index as int] == path@[current_path_index as int]);
                        }
                    }
                    // skip the rest of this key and its terminating zero
                    while self.matches[current_match_index] != 0
                        invariant
                            c < ks.len(),
                            self.matches@ == join_keys(ks),
                            key_start(ks, c as int) <= current_match_index <= key_start(ks, c as int) + ks[c as int].len(),
                            key_start(ks, c as int + 1) == key_start(ks, c as int) + ks[c as int].len() + 1,
                            key_start(ks, c as int + 1) <= self.matches.len(),
                            join_keys(ks)[key_start(ks, c as int) + ks[c as int].len()] == 0u8,
                        decreases key_start(ks, c as int) + ks[c as int].len() - current_match_index,
                    {
                        assert(current_match_index != key_start(ks, c as int) + ks[c as int].len());
                        current_match_index += 1;
                    }
                    proof {
                        assert(zero_free(ks[c as int]));
                        if current_match_index < key_start(ks, c as int) + ks[c as int].len() {
                            let j = current_match_index - key_start(ks, c as int);
                            assert(join_keys(ks)[key_start(ks, c as int) + j] == ks[c as int][j]);
                        }
                    }
                    current_match_index += 1;
                    current_path_index = 0;
                    current_path += 1;
                }
            }
        }
        proof {
            if current_path < ks.len() {
                lemma_key_layout(ks, current_path as int);
            }
        }
        None
    }
}


/// Different text has different UTF-8 bytes.
proof fn lemma_encode_injective(a: Seq<char>, b: Seq<char>)
    ensures
        encode_utf8(a) == encode_utf8(b) ==> a == b,
{
    vstd::utf8::encode_utf8_decode_utf8(a);
    vstd::utf8::encode_utf8_decode_utf8(b);
}

proof fn lemma_or_nonzero(a: u8, b: u8)
    by (bit_vector)
    requires
        a != 0,
    ensures
        a | b != 0,
{
}

proof fn lemma_low_byte_nonzero(v: u32)
    by (bit_vector)
    requires
        0 < v <= 0x7F,
    ensures
        (v & 0x7F) as u8 != 0,
{
}

/// No byte of the encoding of a character other than NUL is zero.
proof fn lemma_encode_zero_free(s: Seq<char>)
    requires
        !s.contains('\0'),
    ensures
        zero_free(encode_utf8(s)),
    decreases s.len(),
{
    if s.len() > 0 {
        let v = s[0] as u32;
        assert(s[0] != '\0');
        assert(v != 0) by {
            vstd::utf8::char_u32_cast(s[0], v);
            if v == 0 {
                vstd::utf8::char_u32_cast('\0', 0u32);
            }
        }
        let head = vstd::utf8::encode_scalar(v);
        if vstd::utf8::has_width_1_encoding(v) {
            lemma_low_byte_nonzero(v);
        } else {
            lemma_or_nonzero(0xC0, ((v >> 6) & 0x1F) as u8);
            lemma_or_nonzero(0xE0, ((v >> 12) & 0x0F) as u8);
            lemma_or_nonzero(0xF0, ((v >> 18) & 0x7) as u8);
            lemma_or_nonzero(0x80, (v & 0x3F) as u8);
            lemma_or_nonzero(0x80, ((v >> 6) & 0x3F) as u8);
            lemma_or_nonzero(0x80, ((v >> 12) & 0x3F) as u8);
        }
        assert(zero_free(head));
        assert(!s.drop_first().contains('\0')) by {
            if s.drop_first().contains('\0') {
                let k = choose|k: int| 0 <= k < s.drop_first().len() && s.drop_first()[k] == '\0';
                assert(s[k + 1] == '\0');
            }
        }
        lemma_encode_zero_free(s.drop_first());
        assert(encode_utf8(s) == head + encode_utf8(s.drop_first()));
    }
}

impl<E> RouteNode<E> {
    /// The child whose key is `k`.
    spec fn child(&self, k: Seq<u8>) -> Option<RouteNode<E>> {
        if exists|i: int| 0 <= i < self.keys@.len() && self.keys@[i] == k {
            let i = choose|i: int| 0 <= i < self.keys@.len() && self.keys@[i] == k;
            Some(self.routers@[i])
        } else {
            None
        }
    }

    /// The node reached from this one through the segments of `p`.
    spec fn node_at(&self, p: Seq<Seq<char>>) -> Option<RouteNode<E>>
        decreases p.len(),
    {
        if p.len() == 0 {
            Some(*self)
        } else {
            match self.child(encode_utf8(p[0])) {
                Some(c) => c.node_at(p.drop_first()),
                None => None,
            }
        }
    }

    spec fn endpoint_at(&self, p: Seq<Seq<char>>) -> Option<E> {
        match self.node_at(p) {
            Some(n) => n.endpoint,
            None => None,
        }
    }

    spec fn table(&self) -> RouteTable<E> {
        RouteTable {
            endpoints: Map::new(
                |p: Seq<Seq<char>>| self.endpoint_at(p) is Some,
                |p: Seq<Seq<char>>| self.endpoint_at(p)->Some_0,
            ),
            nodes: Set::new(|p: Seq<Seq<char>>| self.node_at(p) is Some),
        }
    }

    proof fn lemma_child_at(&self, i: int)
        requires
            self.wf(),
            0 <= i < self.keys@.len(),
        ensures
            self.child(self.keys@[i]) == Some(self.routers@[i]),
            self.routers@[i].wf(),
    {
        let j = choose|j: int| 0 <= j < self.keys@.len() && self.keys@[j] == self.keys@[i];
        assert(i == j);
        assert(self.routers@[i].wf());
    }

    proof fn lemma_fresh(&self, p: Seq<Seq<char>>)
        requires
            self.keys@.len() == 0,
            self.endpoint is None,
        ensures
            self.node_at(p) is Some <==> p.len() == 0,
            self.endpoint_at(p) is None,
    {
    }

    proof fn lemma_node_at_push(&self, q: Seq<Seq<char>>, s: Seq<char>)
        ensures
            self.node_at(q.push(s)) == match self.node_at(q) {
                Some(n) => n.child(encode_utf8(s)),
                None => None,
            },
        decreases q.len(),
    {
        if q.len() == 0 {
            assert(q.push(s).drop_first() =~= Seq::<Seq<char>>::empty());
            match self.child(encode_utf8(s)) {
                Some(c) => {
                    assert(c.node_at(Seq::<Seq<char>>::empty()) == Some(c));
                },
                None => {},
            }
        } else {
            assert(q.push(s).drop_first() =~= q.drop_first().push(s));
            assert(q.push(s)[0] == q[0]);
            match self.child(encode_utf8(q[0])) {
                Some(c) => {
                    c.lemma_node_at_push(q.drop_first(), s);
                },
                None => {},
            }
        }
    }

    /// Stores `endpoint` at the segments of `parts` from `i` on, creating the
    /// nodes that are missing.
    fn insert_path(&mut self, parts: &Vec<String>, i: usize, endpoint: E)
        requires
            old(self).wf(),
            i <= parts@.len(),
            forall|j: int| i <= j < parts@.len() ==> !(#[trigger] parts@[j]@).contains('\0'),
        ensures
            final(self).wf(),
            old(self).grown_into(*final(self)),
            forall|q: Seq<Seq<char>>| #[trigger]
                final(self).node_at(q) is Some <==> (old(self).node_at(q) is Some || is_prefix(
                    q,
                    parts@.map_values(|x: String| x@).subrange(i as int, parts@.len() as int),
                )),
            forall|q: Seq<Seq<char>>| #[trigger]
                final(self).endpoint_at(q) == if q == parts@.map_values(|x: String| x@).subrange(
                    i as int,
                    parts@.len() as int,
                ) {
                    Some(endpoint)
                } else {
                    old(self).endpoint_at(q)
                },
        decreases parts@.len() - i,
    {
        let ghost segs = parts@.map_values(|x: String| x@);
        let ghost s = segs.subrange(i as int, parts@.len() as int);
        let ghost pre = *self;
        if i == parts.len() {
            self.endpoint = Some(endpoint);
            proof {
                pre.lemma_grown_refl();
                assert(pre.grown_into(*self));
                assert forall|q: Seq<Seq<char>>| #[trigger] self.node_at(q) is Some <==> (
                pre.node_at(q) is Some || is_prefix(q, s)) by {
                    if q.len() > 0 {
                        assert(self.child(encode_utf8(q[0])) == pre.child(encode_utf8(q[0])));
                    }
                }
                assert forall|q: Seq<Seq<char>>| #[trigger]
                    self.endpoint_at(q) == if q == s {
                        Some(endpoint)
                    } else {
                        pre.endpoint_at(q)
                    } by {
                    if q.len() > 0 {
                        assert(self.child(encode_utf8(q[0])) == pre.child(encode_utf8(q[0])));
                    } else {
                        assert(q =~= s);
                    }
                }
            }
            return ;
        }
        let key: &[u8] = parts[i].as_str().as_bytes();
        let ghost seg = parts@[i as int]@;
        assert(seg == s[0]);
        assert(key@ == encode_utf8(seg));
        let idx: usize;
        match self.find_path_part_match(key) {
            Some(found) => {
                idx = found;
                proof {
                    pre.lemma_child_at(idx as int);
                }
            },
            None => {
                proof {
                    lemma_encode_zero_free(seg);
                }
                self.matches.extend_from_slice(key);
                self.matches.push(0);
                self.routers.push(RouteNode::new());
                self.keys = Ghost(self.keys@.push(key@));
                idx = self.routers.len() - 1;
                proof {
                    let ks = self.keys@;
                    assert(ks.drop_last() =~= pre.keys@);
                    assert(self.matches@ =~= join_keys(ks));
                    assert forall|a: int| 0 <= a < self.routers@.len() implies (#[trigger] self.routers@[a]).wf() by {
                        if a < pre.routers@.len() {
                            assert(self.routers@[a] == pre.routers@[a]);
                        }
                    }
                    assert forall|a: int, b: int|
                        0 <= a < ks.len() && 0 <= b < ks.len() && a != b
                            implies #[trigger] ks[a] != #[trigger] ks[b] by {
                        if a < pre.keys@.len() && b < pre.keys@.len() {
                            assert(ks[a] == pre.keys@[a]);
                            assert(ks[b] == pre.keys@[b]);
                        }
                    }
                    assert(self.wf());
                    self.lemma_child_at(idx as int);
                }
            },
        }
        let ghost mid = *self;
        let ghost old_child = self.routers@[idx as int];
        proof {
            assert(parts@.map_values(|x: String| x@).subrange(i + 1, parts@.len() as int) =~= s.drop_first());
        }
        self.routers[idx].insert_path(parts, i + 1, endpoint);
        let ghost new_child = self.routers@[idx as int];
        proof {
            assert(self.keys@.take(pre.keys@.len() as int) =~= pre.keys@);
            assert(self.matches@.take(pre.matches@.len() as int) =~= pre.matches@);
            assert forall|a: int| 0 <= a < pre.routers@.len() implies (#[trigger] pre.routers@[a]).grown_into(
                self.routers@[a],
            ) by {
                if a == idx {
                    assert(pre.routers@[a] == old_child);
                } else {
                    assert(self.routers@[a] == pre.routers@[a]);
                    pre.routers@[a].lemma_grown_refl();
                }
            }
            assert(pre.grown_into(*self));
            assert(self.keys@ == mid.keys@);
            assert forall|a: int| 0 <= a < self.routers@.len() implies (#[trigger] self.routers@[a]).wf() by {
                if a != idx {
                    assert(self.routers@[a] == mid.routers@[a]);
                    mid.lemma_child_at(a);
                }
            }
            assert(self.wf());
            self.lemma_child_at(idx as int);
            // children under other keys are those of before
            assert forall|k: Seq<u8>| k != key@ implies #[trigger] self.child(k) == pre.child(k) by {
                if exists|a: int| 0 <= a < pre.keys@.len() && pre.keys@[a] == k {
                    let a = choose|a: int| 0 <= a < pre.keys@.len() && pre.keys@[a] == k;
                    pre.lemma_child_at(a);
                    assert(self.keys@[a] == k);
                    assert(a != idx);
                    assert(self.routers@[a] == mid.routers@[a]);
                    self.lemma_child_at(a);
                } else {
                    if exists|a: int| 0 <= a < self.keys@.len() && self.keys@[a] == k {
                        let a = choose|a: int| 0 <= a < self.keys@.len() && self.keys@[a] == k;
                        assert(a != idx);
                        assert(a < pre.keys@.len());
                        assert(pre.keys@[a] == k);
                    }
                }
            }
            assert(pre.child(key@) is Some ==> pre.child(key@) == Some(old_child));
            assert(pre.child(key@) is None ==> old_child.keys@.len() == 0 && old_child.endpoint is None);
            assert(self.child(key@) == Some(new_child));
            assert forall|q: Seq<Seq<char>>| #[trigger] self.node_at(q) is Some <==> (
            pre.node_at(q) is Some || is_prefix(q, s)) by {
                if q.len() > 0 {
                    let k = encode_utf8(q[0]);
                    let rest = q.drop_first();
                    lemma_encode_injective(q[0], seg);
                    if k == key@ {
                        assert(q[0] == s[0]);
                        assert(self.node_at(q) == new_child.node_at(rest));
                        assert(is_prefix(q, s) <==> is_prefix(rest, s.drop_first())) by {
                            if is_prefix(q, s) {
                                assert(s.drop_first().take(rest.len() as int) =~= rest);
                            }
                            if is_prefix(rest, s.drop_first()) {
                                assert forall|j: int| 0 <= j < q.len() implies s.take(q.len() as int)[j] == q[j] by {
                                    if j > 0 {
                                        assert(q[j] == rest[j - 1]);
                                        assert(s.drop_first().take(rest.len() as int)[j - 1] == s[j]);
                                    }
                                }
                                assert(s.take(q.len() as int) =~= q);
                            }
                        }
                        if pre.child(key@) is None {
                            old_child.lemma_fresh(rest);
                            assert(pre.node_at(q) is None);
                            if rest.len() == 0 {
                                assert(s.drop_first().take(0) =~= rest);
                            }
                        } else {
                            assert(pre.node_at(q) == old_child.node_at(rest));
                        }
                    } else {
                        assert(q[0] != s[0]);
                        assert(self.node_at(q) == pre.node_at(q));
                        assert(!is_prefix(q, s)) by {
                            if is_prefix(q, s) {
                                assert(s.take(q.len() as int)[0] == s[0]);
                            }
                        }
                    }
                } else {
                    assert(s.take(0) =~= q);
                }
            }
            assert forall|q: Seq<Seq<char>>| #[trigger]
                self.endpoint_at(q) == if q == s {
                    Some(endpoint)
                } else {
                    pre.endpoint_at(q)
                } by {
                if q.len() > 0 {
                    let k = encode_utf8(q[0]);
                    let rest = q.drop_first();
                    lemma_encode_injective(q[0], seg);
                    if k == key@ {
                        assert(q[0] == s[0]);
                        assert(self.endpoint_at(q) == new_child.endpoint_at(rest));
                        assert((q == s) <==> (rest == s.drop_first())) by {
                            if rest == s.drop_first() {
                                assert forall|j: int| 0 <= j < q.len() implies s[j] == q[j] by {
                                    if j > 0 {
                                        assert(q[j] == rest[j - 1]);
                                    }
                                }
                                assert(q =~= s);
                            }
                        }
                        if pre.child(key@) is None {
                            old_child.lemma_fresh(rest);
                            assert(pre.endpoint_at(q) is None);
                        } else {
                            assert(pre.endpoint_at(q) == old_child.endpoint_at(rest));
                        }
                    } else {
                        assert(self.endpoint_at(q) == pre.endpoint_at(q));
                        assert(q != s);
                    }
                } else {
                    assert(q != s);
                }
            }
        }
    }
}


proof fn lemma_split_no_nul(s: Seq<char>)
    requires
        !s.contains('\0'),
    ensures
        forall|i: int| 0 <= i < split_path(s).len() ==> !(#[trigger] split_path(s)[i]).contains('\0'),
        split_path(s).len() >= 1,
    decreases s.len(),
{
    if s.len() > 0 {
        let t = s.drop_last();
        assert(!t.contains('\0')) by {
            if t.contains('\0') {
                let k = choose|k: int| 0 <= k < t.len() && t[k] == '\0';
                assert(s[k] == '\0');
            }
        }
        lemma_split_no_nul(t);
        let prev = split_path(t);
        assert(s.last() != '\0') by {
            assert(s[s.len() - 1] == s.last());
        }
        if s.last() != '/' {
            let grown = prev.last().push(s.last());
            assert(!grown.contains('\0')) by {
                if grown.contains('\0') {
                    let k = choose|k: int| 0 <= k < grown.len() && grown[k] == '\0';
                    if k < prev.last().len() {
                        assert(prev[prev.len() - 1][k] == '\0');
                    }
                }
            }
        }
    }
}

/// A path cut at every '/' into segments.
pub struct RouterPath {
    parts: Vec<String>,
}

impl View for RouterPath {
    type V = Seq<Seq<char>>;

    closed spec fn view(&self) -> Seq<Seq<char>> {
        self.parts@.map_values(|x: String| x@)
    }
}

impl RouterPath {
    /// Splits `path` at every '/', keeping empty segments.
    pub fn from_str(path: &str) -> (r: RouterPath)
        ensures
            r@ == split_path(path@),
    {
        let n = path.unicode_len();
        let mut parts: Vec<String> = Vec::new();
        let mut start: usize = 0;
        let mut idx: usize = 0;
        proof {
            assert(path@.take(0) =~= Seq::<char>::empty());
            assert(parts@.map_values(|x: String| x@).push(path@.subrange(0, 0)) =~= split_path(path@.take(0)));
        }
        for c in it: path.chars()
            invariant
                n == path@.len(),
                idx == it.index(),
                it.seq() == path@,
                start <= idx <= n,
                parts@.map_values(|x: String| x@).push(path@.subrange(start as int, idx as int))
                    == split_path(path@.take(idx as int)),
        {
            proof {
                assert(c == path@[idx as int]);
                let t = path@.take(idx + 1);
                assert(t.drop_last() =~= path@.take(idx as int));
                assert(t.last() == c);
            }
            if c == '/' {
                let part = path.substring_char(start, idx).to_owned();
                let ghost before = parts@.map_values(|x: String| x@);
                proof {
                    let t = path@.take(idx + 1);
                    assert(split_path(t) == split_path(t.drop_last()).push(Seq::<char>::empty()));
                    assert(part@ == path@.subrange(start as int, idx as int));
                    assert(path@.subrange(idx + 1, idx + 1) =~= Seq::<char>::empty());
                    assert(before.push(part@).push(path@.subrange(idx + 1, idx + 1))
                        =~= split_path(path@.take(idx + 1)));
                }
                parts.push(part);
                start = idx + 1;
                proof {
                    assert(parts@.map_values(|x: String| x@) =~= before.push(part@));
                }
            } else {
                proof {
                    let prev = split_path(path@.take(idx as int));
                    assert(path@.subrange(start as int, idx + 1) =~= path@.subrange(start as int, idx as int).push(c));
                    assert(parts@.map_values(|x: String| x@).push(path@.subrange(start as int, idx + 1))
                        =~= prev.update(prev.len() - 1, prev.last().push(c)));
                }
            }
            idx = idx + 1;
        }
        let last = path.substring_char(start, idx).to_owned();
        let ghost before = parts@.map_values(|x: String| x@);
        parts.push(last);
        proof {
            assert(parts@.map_values(|x: String| x@) =~= before.push(last@));
            assert(path@.take(idx as int) =~= path@);
            assert(parts@.map_values(|x: String| x@) =~= split_path(path@));
        }
        RouterPath { parts }
    }
}


impl RouterPath {
    /// The overload handed to an endpoint reached after `depth` matched
    /// segments, given its strictness; `None` where it is not to be invoked.
    pub fn overload(&self, depth: usize, strict: bool) -> (r: Option<Vec<String>>)
        requires
            depth <= self@.len(),
        ensures
            match r {
                Some(v) => overload_of(self@, depth as nat, strict) == Some(
                    v@.map_values(|x: String| x@),
                ),
                None => overload_of(self@, depth as nat, strict) is None,
            },
    {
        if strict {
            if depth == self.parts.len() {
                let v: Vec<String> = Vec::new();
                proof {
                    assert(v@.map_values(|x: String| x@) =~= Seq::<Seq<char>>::empty());
                }
                Some(v)
            } else {
                None
            }
        } else if depth > 0 {
            let mut v: Vec<String> = Vec::new();
            let mut j: usize = depth - 1;
            while j < self.parts.len()
                invariant
                    self@ == self.parts@.map_values(|x: String| x@),
                    0 < depth <= self@.len(),
                    depth - 1 <= j <= self.parts@.len(),
                    v@.map_values(|x: String| x@) == self@.subrange(depth - 1, j as int),
                decreases self.parts@.len() - j,
            {
                let ghost before = v@.map_values(|x: String| x@);
                v.push(self.parts[j].clone());
                proof {
                    assert(v@.map_values(|x: String| x@) =~= before.push(self.parts@[j as int]@));
                    assert(self@.subrange(depth - 1, j + 1) =~= self@.subrange(depth - 1, j as int).push(
                        self@[j as int],
                    ));
                }
                j += 1;
            }
            Some(v)
        } else {
            let v: Vec<String> = Vec::new();
            proof {
                assert(v@.map_values(|x: String| x@) =~= Seq::<Seq<char>>::empty());
            }
            Some(v)
        }
    }
}

/// Routes paths to endpoints through a tree keyed by path segments; an
/// optional fallback endpoint answers where no route does.
pub struct Router<E> {
    root: RouteNode<E>,
    endpoint_404: Option<E>,
}

impl<E> View for Router<E> {
    type V = RouteTable<E>;

    closed spec fn view(&self) -> RouteTable<E> {
        self.root.table()
    }
}

impl<E> RouteNode<E> {
    proof fn lemma_table_wf(&self)
        ensures
            self.table().wf(),
    {
        let t = self.table();
        assert(self.node_at(Seq::<Seq<char>>::empty()) is Some);
        assert forall|q: Seq<Seq<char>>, n: int|
            #![trigger t.nodes.contains(q), q.take(n)]
            t.nodes.contains(q) && 0 <= n <= q.len() implies t.nodes.contains(q.take(n)) by {
            self.lemma_node_at_take(q, n);
        }
    }

    proof fn lemma_node_at_take(&self, q: Seq<Seq<char>>, n: int)
        requires
            self.node_at(q) is Some,
            0 <= n <= q.len(),
        ensures
            self.node_at(q.take(n)) is Some,
        decreases q.len(),
    {
        if n > 0 {
            let c = self.child(encode_utf8(q[0]))->Some_0;
            assert(q.take(n).drop_first() =~= q.drop_first().take(n - 1));
            c.lemma_node_at_take(q.drop_first(), n - 1);
        }
    }
}

impl<E> Default for Router<E> {
    fn default() -> (r: Self)
        ensures
            r.wf(),
            r@ == RouteTable::<E>::empty(),
            r.fallback() is None,
    {
        Router::new()
    }
}

impl<E> Router<E> {
    /// Every node keeps its children's keys, each free of zero bytes and
    /// followed by one, in `matches`, one key per child, no key twice.
    pub closed spec fn wf(&self) -> bool {
        self.root.wf()
    }

    /// The endpoint that answers when no route does.
    pub closed spec fn fallback(&self) -> Option<E> {
        self.endpoint_404
    }

    pub fn new() -> (r: Self)
        ensures
            r.wf(),
            r@ == RouteTable::<E>::empty(),
            r.fallback() is None,
    {
        let r = Router { root: RouteNode::new(), endpoint_404: None };
        proof {
            assert forall|p: Seq<Seq<char>>| #[trigger] r.root.node_at(p) is Some <==> p == Seq::<Seq<char>>::empty() by {
                r.root.lemma_fresh(p);
                if p.len() == 0 {
                    assert(p =~= Seq::<Seq<char>>::empty());
                }
            }
            assert forall|p: Seq<Seq<char>>| #[trigger] r.root.endpoint_at(p) is None by {
                r.root.lemma_fresh(p);
            }
            assert(r@.endpoints =~= Map::<Seq<Seq<char>>, E>::empty());
            assert(r@.nodes =~= set![Seq::<Seq<char>>::empty()]);
        }
        r
    }

    /// Stores `endpoint` at `path`, replacing any endpoint stored there.
    /// A path must not hold a NUL character: the zero byte ends a key.
    pub fn add_path(&mut self, path: &str, endpoint: E)
        requires
            old(self).wf(),
            !path@.contains('\0'),
        ensures
            final(self).wf(),
            final(self)@ == old(self)@.insert(split_path(path@), endpoint),
            final(self).fallback() == old(self).fallback(),
            old(self).extends_to(*final(self)),
    {
        let ghost pre = self.root;
        let router_path = RouterPath::from_str(path);
        proof {
            lemma_split_no_nul(path@);
            assert forall|j: int| 0 <= j < router_path.parts@.len() implies !(
            #[trigger] router_path.parts@[j]@).contains('\0') by {
                assert(router_path.parts@[j]@ == router_path@[j]);
            }
            assert(router_path@.subrange(0, router_path@.len() as int) =~= router_path@);
        }
        self.root.insert_path(&router_path.parts, 0, endpoint);
        proof {
            let p = split_path(path@);
            let want = pre.table().insert(p, endpoint);
            assert(self@.endpoints =~= want.endpoints);
            assert(self@.nodes =~= want.nodes);
        }
    }

    /// Installs the endpoint that answers where no route does.
    pub fn set_endpoint_404(&mut self, endpoint: E)
        ensures
            final(self).wf() == old(self).wf(),
            final(self)@ == old(self)@,
            final(self).fallback() == Some(endpoint),
    {
        self.endpoint_404 = Some(endpoint);
    }

    /// Walks the segments of `path` down the tree while they match: gives
    /// the endpoint of the node where the walk stopped and the number of
    /// segments it matched.
    pub fn locate(&self, path: &RouterPath) -> (r: (Option<&E>, usize))
        requires
            self.wf(),
        ensures
            r.1 == self@.depth(path@),
            match r.0 {
                Some(e) => self@.reached(path@) == Some(*e),
                None => self@.reached(path@) is None,
            },
    {
        let ghost p = path@;
        let ghost t = self@;
        let n = path.parts.len();
        let mut cur: &RouteNode<E> = &self.root;
        let mut i: usize = 0;
        let mut matching = true;
        proof {
            assert(p.take(0) =~= Seq::<Seq<char>>::empty());
        }
        while matching && i < n
            invariant
                !matching ==> i < n && !t.nodes.contains(p.take(i + 1)),
                self.root.wf(),
                cur.wf(),
                n == p.len(),
                p == path@,
                t == self@,
                i <= n,
                self.root.node_at(p.take(i as int)) == Some(*cur),
                t.depth(p) == t.walk(p, i as nat),
            decreases n - i + if matching { 1int } else { 0int },
        {
            let key: &[u8] = path.parts[i].as_str().as_bytes();
            proof {
                assert(key@ == encode_utf8(p[i as int]));
                assert(p.take(i as int).push(p[i as int]) =~= p.take(i + 1));
                self.root.lemma_node_at_push(p.take(i as int), p[i as int]);
            }
            match cur.find_path_part_match(key) {
                Some(idx) => {
                    proof {
                        cur.lemma_child_at(idx as int);
                    }
                    cur = &cur.routers[idx];
                    i += 1;
                },
                None => {
                    matching = false;
                },
            }
        }
        proof {
            if i < n {
                assert(!t.nodes.contains(p.take(i + 1)));
            }
            assert(t.walk(p, i as nat) == i);
        }
        match &cur.endpoint {
            Some(e) => (Some(e), i),
            None => (None, i),
        }
    }

    /// Finds the endpoint for `path` and has it process `data`.
    ///
    /// The walk stops at the first segment without a matching child. The
    /// endpoint stored where it stopped is invoked if it matched the whole
    /// path, or if it is not strict; otherwise, and where no endpoint is
    /// stored there, the fallback endpoint is invoked, if there is one.
    pub fn route<T, R>(&self, path: &str, data: T) -> (r: Option<R>) where E: Endpoint<T, R>
        requires
            self.wf(),
        ensures
            ({
                let p = split_path(path@);
                let served = self@.reached(p) matches Some(e) && overload_of(
                    p,
                    self@.depth(p),
                    e.strict(),
                ) is Some;
                &&& self.fallback() is None ==> (r is Some <==> served)
                &&& served ==> (r matches Some(v) && self@.reached(p)->Some_0.answers(
                    data,
                    overload_of(p, self@.depth(p), self@.reached(p)->Some_0.strict())->Some_0,
                    v,
                ))
                &&& !served && self.fallback() is Some ==> (r matches Some(v)
                    && self.fallback()->Some_0.answers(data, Seq::empty(), v))
            }),
    {
        let router_path = RouterPath::from_str(path);
        let (found, depth) = self.locate(&router_path);
        if let Some(endpoint) = found {
            proof {
                assert(depth <= router_path@.len()) by {
                    self@.lemma_walk_bound(router_path@, 0);
                }
            }
            let strict = endpoint.use_strict_path_matching();
            if let Some(path_overload) = router_path.overload(depth, strict) {
                return Some(endpoint.process(RoutedInfo { data, path_overload }));
            }
        }
        match &self.endpoint_404 {
            Some(endpoint) => {
                let path_overload: Vec<String> = Vec::new();
                proof {
                    assert(path_overload@.map_values(|x: String| x@) =~= Seq::<Seq<char>>::empty());
                }
                Some(endpoint.process(RoutedInfo { data, path_overload }))
            },
            None => None,
        }
    }
}

impl<E> RouteTable<E> {
    pub proof fn lemma_walk_bound(self, p: Seq<Seq<char>>, j: nat)
        requires
            j <= p.len(),
        ensures
            j <= self.walk(p, j) <= p.len(),
        decreases p.len() - j,
    {
        if j < p.len() && self.nodes.contains(p.take((j + 1) as int)) {
            self.lemma_walk_bound(p, j + 1);
        }
    }
}


/// Joining segments with '/' between them.
pub open spec fn join_path(parts: Seq<Seq<char>>) -> Seq<char>
    decreases parts.len(),
{
    if parts.len() == 0 {
        Seq::empty()
    } else if parts.len() == 1 {
        parts[0]
    } else {
        join_path(parts.drop_last()) + seq!['/'] + parts.last()
    }
}

/// Splitting loses nothing: joining the segments gives the path back.
pub proof fn lemma_split_join(s: Seq<char>)
    ensures
        join_path(split_path(s)) == s,
        split_path(s).len() >= 1,
    decreases s.len(),
{
    if s.len() > 0 {
        let t = s.drop_last();
        lemma_split_join(t);
        let prev = split_path(t);
        let c = s.last();
        if c == '/' {
            let now = prev.push(Seq::<char>::empty());
            assert(now.drop_last() =~= prev);
            assert(join_path(now) =~= s);
        } else {
            let now = prev.update(prev.len() - 1, prev.last().push(c));
            if prev.len() == 1 {
                assert(join_path(now) =~= s);
            } else {
                assert(now.drop_last() =~= prev.drop_last());
                assert(join_path(now) =~= join_path(prev).push(c));
                assert(join_path(now) =~= s);
            }
        }
    }
}

/// The table after adding `eps[k]` at the path `paths[k]`, for each `k` in turn.
pub open spec fn insert_all<E>(t: RouteTable<E>, paths: Seq<Seq<char>>, eps: Seq<E>) -> RouteTable<E>
    decreases paths.len(),
{
    if paths.len() == 0 || eps.len() == 0 {
        t
    } else {
        insert_all(t, paths.drop_last(), eps.drop_last()).insert(split_path(paths.last()), eps.last())
    }
}

impl<E> RouteTable<E> {
    /// A walk through a path whose every start has a node matches all of it.
    pub proof fn lemma_walk_full(self, p: Seq<Seq<char>>, j: nat)
        requires
            j <= p.len(),
            forall|n: int| 0 <= n <= p.len() ==> self.nodes.contains(#[trigger] p.take(n)),
        ensures
            self.walk(p, j) == p.len(),
        decreases p.len() - j,
    {
        if j < p.len() {
            assert(self.nodes.contains(p.take((j + 1) as int)));
            self.lemma_walk_full(p, j + 1);
        }
    }

    /// Adding keeps the table well formed.
    pub proof fn lemma_insert_wf(self, p: Seq<Seq<char>>, e: E)
        requires
            self.wf(),
        ensures
            self.insert(p, e).wf(),
    {
        let t = self.insert(p, e);
        assert(is_prefix(Seq::<Seq<char>>::empty(), p)) by {
            assert(p.take(0) =~= Seq::<Seq<char>>::empty());
        }
        assert forall|q: Seq<Seq<char>>, n: int|
            #![trigger t.nodes.contains(q), q.take(n)]
            t.nodes.contains(q) && 0 <= n <= q.len() implies t.nodes.contains(q.take(n)) by {
            if !self.nodes.contains(q) {
                assert(p.take(q.take(n).len() as int) =~= q.take(n));
            }
        }
        assert forall|q: Seq<Seq<char>>| #[trigger] t.endpoints.contains_key(q) implies t.nodes.contains(q) by {
            if q == p {
                assert(p.take(p.len() as int) =~= p);
            }
        }
    }
}

/// Round trip: after endpoints are added at distinct paths, in any order, a
/// lookup of any of those paths matches all its segments and reaches the
/// endpoint that was added there.
pub proof fn lemma_round_trip<E>(paths: Seq<Seq<char>>, eps: Seq<E>, i: int)
    requires
        paths.len() == eps.len(),
        forall|a: int, b: int|
            0 <= a < paths.len() && 0 <= b < paths.len() && a != b ==> paths[a] != paths[b],
        0 <= i < paths.len(),
    ensures
        insert_all(RouteTable::<E>::empty(), paths, eps).wf(),
        insert_all(RouteTable::<E>::empty(), paths, eps).depth(split_path(paths[i]))
            == split_path(paths[i]).len(),
        insert_all(RouteTable::<E>::empty(), paths, eps).reached(split_path(paths[i])) == Some(
            eps[i],
        ),
    decreases paths.len(),
{
    let t0 = RouteTable::<E>::empty();
    let k = paths.len() - 1;
    let prev = insert_all(t0, paths.drop_last(), eps.drop_last());
    let t = insert_all(t0, paths, eps);
    let p = split_path(paths[i]);
    assert(t == prev.insert(split_path(paths.last()), eps.last()));
    if i < k {
        lemma_round_trip(paths.drop_last(), eps.drop_last(), i);
        assert(paths.drop_last()[i] == paths[i]);
        assert(paths[i] != paths[k]);
        lemma_split_join(paths[i]);
        lemma_split_join(paths[k]);
        assert(p != split_path(paths.last()));
        assert(p.take(p.len() as int) =~= p);
        assert(eps.drop_last()[i] == eps[i]);
        assert(prev.endpoints.contains_key(p) && prev.endpoints[p] == eps[i]);
    } else {
        if k > 0 {
            lemma_round_trip(paths.drop_last(), eps.drop_last(), 0);
        } else {
            assert(prev == t0);
            assert(t0.wf()) by {
                assert forall|q: Seq<Seq<char>>, n: int|
                    #![trigger t0.nodes.contains(q), q.take(n)]
                    t0.nodes.contains(q) && 0 <= n <= q.len() implies t0.nodes.contains(q.take(n)) by {
                    assert(q.take(n) =~= q);
                }
            }
        }
    }
    assert(prev.wf());
    prev.lemma_insert_wf(split_path(paths.last()), eps.last());
    assert(t.endpoints.contains_key(p) && t.endpoints[p] == eps[i]);
    assert(t.nodes.contains(p));
    assert forall|n: int| 0 <= n <= p.len() implies t.nodes.contains(#[trigger] p.take(n)) by {
    }
    t.lemma_walk_full(p, 0);
    assert(p.take(p.len() as int) =~= p);
}

/// Last write wins: adding at the same path twice leaves the table as if
/// only the second endpoint had been added.
pub proof fn lemma_last_write_wins<E>(t: RouteTable<E>, p: Seq<Seq<char>>, first: E, second: E)
    ensures
        t.insert(p, first).insert(p, second) == t.insert(p, second),
        t.insert(p, first).insert(p, second).endpoints[p] == second,
{
    assert(t.insert(p, first).insert(p, second).endpoints =~= t.insert(p, second).endpoints);
    assert(t.insert(p, first).insert(p, second).nodes =~= t.insert(p, second).nodes);
}

/// Strict and prefix matching: where a lookup of `q + rest` leaves the tree
/// right after the segments of `q`, it stops at the endpoint stored at `q`. A
/// non-strict endpoint there receives the segments from the last matched one
/// on; a strict one is not invoked.
pub proof fn lemma_prefix_match<E>(t: RouteTable<E>, q: Seq<Seq<char>>, rest: Seq<Seq<char>>)
    requires
        t.wf(),
        t.endpoints.contains_key(q),
        q.len() > 0,
        rest.len() > 0,
        !t.nodes.contains(q.push(rest[0])),
    ensures
        t.depth(q + rest) == q.len(),
        t.reached(q + rest) == Some(t.endpoints[q]),
        overload_of(q + rest, q.len(), false) == Some((q + rest).subrange(q.len() - 1, (q.len() + rest.len()) as int)),
        overload_of(q + rest, q.len(), true) is None,
{
    let p = q + rest;
    assert forall|n: int| 0 <= n <= q.len() implies t.nodes.contains(#[trigger] p.take(n)) by {
        assert(p.take(n) =~= q.take(n));
    }
    assert(p.take((q.len() + 1) as int) =~= q.push(rest[0]));
    lemma_walk_prefix(t, p, q.len(), 0);
    assert(p.take(q.len() as int) =~= q);
}

proof fn lemma_walk_prefix<E>(t: RouteTable<E>, p: Seq<Seq<char>>, m: nat, j: nat)
    requires
        j <= m < p.len(),
        forall|n: int| 0 <= n <= m ==> t.nodes.contains(#[trigger] p.take(n)),
        !t.nodes.contains(p.take((m + 1) as int)),
    ensures
        t.walk(p, j) == m,
    decreases m - j,
{
    if j < m {
        assert(t.nodes.contains(p.take((j + 1) as int)));
        lemma_walk_prefix(t, p, m, j + 1);
    }
}

/// The number of zero bytes in `b`.
pub open spec fn zero_count(b: Seq<u8>) -> nat
    decreases b.len(),
{
    if b.len() == 0 {
        0
    } else {
        zero_count(b.drop_last()) + if b.last() == 0u8 {
            1nat
        } else {
            0nat
        }
    }
}

proof fn lemma_zero_count_concat(a: Seq<u8>, b: Seq<u8>)
    ensures
        zero_count(a + b) == zero_count(a) + zero_count(b),
    decreases b.len(),
{
    if b.len() > 0 {
        assert((a + b).drop_last() =~= a + b.drop_last());
        lemma_zero_count_concat(a, b.drop_last());
    }
}

proof fn lemma_zero_count_keys(ks: Seq<Seq<u8>>)
    requires
        forall|i: int| 0 <= i < ks.len() ==> zero_free(#[trigger] ks[i]),
    ensures
        zero_count(join_keys(ks)) == ks.len(),
    decreases ks.len(),
{
    if ks.len() > 0 {
        let k = ks.last();
        assert(forall|i: int| 0 <= i < ks.drop_last().len() ==> ks.drop_last()[i] == ks[i]);
        lemma_zero_count_keys(ks.drop_last());
        lemma_zero_count_concat(join_keys(ks.drop_last()), k.push(0u8));
        lemma_zero_free_count(k);
        assert(k.push(0u8).drop_last() =~= k);
    }
}

proof fn lemma_zero_free_count(k: Seq<u8>)
    requires
        zero_free(k),
    ensures
        zero_count(k) == 0,
    decreases k.len(),
{
    if k.len() > 0 {
        lemma_zero_free_count(k.drop_last());
    }
}

impl<E> RouteNode<E> {
    spec fn children_sound(&self) -> bool {
        &&& forall|i: int, j: int|
            0 <= i < self.keys@.len() && 0 <= j < self.keys@.len() && i != j
                ==> #[trigger] self.keys@[i] != #[trigger] self.keys@[j]
        &&& zero_count(self.matches@) == self.routers@.len()
    }

    proof fn lemma_node_at_wf(&self, p: Seq<Seq<char>>)
        requires
            self.wf(),
            self.node_at(p) is Some,
        ensures
            self.node_at(p)->Some_0.wf(),
        decreases p.len(),
    {
        if p.len() > 0 {
            let k = encode_utf8(p[0]);
            let i = choose|i: int| 0 <= i < self.keys@.len() && self.keys@[i] == k;
            self.lemma_child_at(i);
            self.routers@[i].lemma_node_at_wf(p.drop_first());
        }
    }
}

impl<E> Router<E> {
    /// Every node of the tree has children with pairwise distinct keys, and
    /// as many zero bytes in `matches` as it has children.
    pub closed spec fn children_sound(&self) -> bool {
        forall|p: Seq<Seq<char>>| #[trigger]
            self.root.node_at(p) is Some ==> self.root.node_at(p)->Some_0.children_sound()
    }

    /// Child keys stay unique and counted by their terminators, whatever was
    /// added, in whatever order.
    pub proof fn lemma_children_sound(&self)
        requires
            self.wf(),
        ensures
            self.children_sound(),
    {
        assert forall|p: Seq<Seq<char>>| #[trigger]
            self.root.node_at(p) is Some implies self.root.node_at(p)->Some_0.children_sound() by {
            self.root.lemma_node_at_wf(p);
            let n = self.root.node_at(p)->Some_0;
            lemma_zero_count_keys(n.keys@);
        }
    }

    /// The table of a router is well formed.
    pub proof fn lemma_view_wf(&self)
        ensures
            self@.wf(),
    {
        self.root.lemma_table_wf();
    }
}


/// `q` is the split of one of the paths.
pub open spec fn added(paths: Seq<Seq<char>>, q: Seq<Seq<char>>) -> bool {
    exists|i: int| 0 <= i < paths.len() && split_path(paths[i]) == q
}

/// `q` is the root or the start of the split of one of the paths.
pub open spec fn under_added(paths: Seq<Seq<char>>, q: Seq<Seq<char>>) -> bool {
    q.len() == 0 || exists|i: int| 0 <= i < paths.len() && is_prefix(q, split_path(paths[i]))
}

/// After endpoints are added at distinct paths, the table stores each one
/// at its own path and nothing else, and has a node exactly for the root
/// and for every start of those paths.
pub proof fn lemma_insert_all_contents<E>(paths: Seq<Seq<char>>, eps: Seq<E>)
    requires
        paths.len() == eps.len(),
        forall|a: int, b: int|
            0 <= a < paths.len() && 0 <= b < paths.len() && a != b ==> paths[a] != paths[b],
    ensures
        forall|q: Seq<Seq<char>>|
            #[trigger] insert_all(RouteTable::<E>::empty(), paths, eps).endpoints.contains_key(q)
                <==> added(paths, q),
        forall|i: int|
            0 <= i < paths.len() ==> #[trigger] insert_all(RouteTable::<E>::empty(), paths, eps).endpoints[split_path(paths[i])]
                == eps[i],
        forall|q: Seq<Seq<char>>|
            #[trigger] insert_all(RouteTable::<E>::empty(), paths, eps).nodes.contains(q)
                <==> under_added(paths, q),
    decreases paths.len(),
{
    let t = insert_all(RouteTable::<E>::empty(), paths, eps);
    if paths.len() == 0 {
        assert forall|q: Seq<Seq<char>>| #[trigger] t.nodes.contains(q) <==> under_added(paths, q) by {
            if q.len() == 0 {
                assert(q =~= Seq::<Seq<char>>::empty());
            }
        }
    } else {
        let k = paths.len() - 1;
        let ps = paths.drop_last();
        let es = eps.drop_last();
        let last = split_path(paths[k]);
        assert forall|a: int, b: int| 0 <= a < ps.len() && 0 <= b < ps.len() && a != b implies ps[a] != ps[b] by {
            assert(ps[a] == paths[a] && ps[b] == paths[b]);
        }
        lemma_insert_all_contents(ps, es);
        let prev = insert_all(RouteTable::<E>::empty(), ps, es);
        assert(t == prev.insert(last, eps.last()));
        assert forall|q: Seq<Seq<char>>| #[trigger] t.endpoints.contains_key(q) <==> added(paths, q) by {
            if added(ps, q) {
                let i = choose|i: int| 0 <= i < ps.len() && split_path(ps[i]) == q;
                assert(split_path(paths[i]) == q);
            }
            if added(paths, q) && q != last {
                let i = choose|i: int| 0 <= i < paths.len() && split_path(paths[i]) == q;
                assert(i != k);
                assert(split_path(ps[i]) == q);
            }
        }
        assert forall|i: int| 0 <= i < paths.len() implies #[trigger] t.endpoints[split_path(paths[i])] == eps[i] by {
            if i < k {
                lemma_split_join(paths[i]);
                lemma_split_join(paths[k]);
                assert(paths[i] != paths[k]);
                assert(split_path(paths[i]) != last);
                assert(ps[i] == paths[i]);
                assert(es[i] == eps[i]);
                assert(prev.endpoints[split_path(ps[i])] == es[i]);
            }
        }
        assert forall|q: Seq<Seq<char>>| #[trigger] t.nodes.contains(q) <==> under_added(paths, q) by {
            if q.len() > 0 {
                if under_added(ps, q) {
                    let i = choose|i: int| 0 <= i < ps.len() && is_prefix(q, split_path(ps[i]));
                    assert(ps[i] == paths[i]);
                }
                if under_added(paths, q) && !is_prefix(q, last) {
                    let i = choose|i: int| 0 <= i < paths.len() && is_prefix(q, split_path(paths[i]));
                    assert(i != k);
                    assert(ps[i] == paths[i]);
                }
                if is_prefix(q, last) {
                    assert(is_prefix(q, split_path(paths[k])));
                }
            }
        }
    }
}

/// Insertion order does not matter: adding the same endpoints at the same
/// distinct paths in two different orders gives the same table, so every
/// lookup reaches the same endpoint after the same matched segments.
pub proof fn lemma_order_irrelevant<E>(
    paths: Seq<Seq<char>>,
    eps: Seq<E>,
    paths2: Seq<Seq<char>>,
    eps2: Seq<E>,
)
    requires
        paths.len() == eps.len(),
        paths2.len() == eps2.len(),
        forall|a: int, b: int|
            0 <= a < paths.len() && 0 <= b < paths.len() && a != b ==> paths[a] != paths[b],
        forall|a: int, b: int|
            0 <= a < paths2.len() && 0 <= b < paths2.len() && a != b ==> paths2[a] != paths2[b],
        forall|i: int|
            0 <= i < paths.len() ==> exists|k: int|
                0 <= k < paths2.len() && #[trigger] paths2[k] == #[trigger] paths[i] && eps2[k] == eps[i],
        forall|k: int|
            0 <= k < paths2.len() ==> exists|i: int|
                0 <= i < paths.len() && #[trigger] paths[i] == #[trigger] paths2[k] && eps[i] == eps2[k],
    ensures
        insert_all(RouteTable::<E>::empty(), paths, eps) == insert_all(
            RouteTable::<E>::empty(),
            paths2,
            eps2,
        ),
{
    let t1 = insert_all(RouteTable::<E>::empty(), paths, eps);
    let t2 = insert_all(RouteTable::<E>::empty(), paths2, eps2);
    lemma_insert_all_contents(paths, eps);
    lemma_insert_all_contents(paths2, eps2);
    assert forall|q: Seq<Seq<char>>| added(paths, q) <==> added(paths2, q) by {
        if added(paths, q) {
            let i = choose|i: int| 0 <= i < paths.len() && split_path(paths[i]) == q;
            assert(paths[i] == paths[i]);
            let k = choose|k: int| 0 <= k < paths2.len() && paths2[k] == paths[i] && eps2[k] == eps[i];
            assert(split_path(paths2[k]) == q);
        }
        if added(paths2, q) {
            let k = choose|k: int| 0 <= k < paths2.len() && split_path(paths2[k]) == q;
            assert(paths2[k] == paths2[k]);
            let i = choose|i: int| 0 <= i < paths.len() && paths[i] == paths2[k] && eps[i] == eps2[k];
            assert(split_path(paths[i]) == q);
        }
    }
    assert forall|q: Seq<Seq<char>>| under_added(paths, q) <==> under_added(paths2, q) by {
        if q.len() > 0 && under_added(paths, q) {
            let i = choose|i: int| 0 <= i < paths.len() && is_prefix(q, split_path(paths[i]));
            assert(paths[i] == paths[i]);
            let k = choose|k: int| 0 <= k < paths2.len() && paths2[k] == paths[i] && eps2[k] == eps[i];
            assert(is_prefix(q, split_path(paths2[k])));
        }
        if q.len() > 0 && under_added(paths2, q) {
            let k = choose|k: int| 0 <= k < paths2.len() && is_prefix(q, split_path(paths2[k]));
            assert(paths2[k] == paths2[k]);
            let i = choose|i: int| 0 <= i < paths.len() && paths[i] == paths2[k] && eps[i] == eps2[k];
            assert(is_prefix(q, split_path(paths[i])));
        }
    }
    assert forall|q: Seq<Seq<char>>| #[trigger] t1.endpoints.contains_key(q) implies t1.endpoints[q] == t2.endpoints[q] by {
        let i = choose|i: int| 0 <= i < paths.len() && split_path(paths[i]) == q;
        assert(paths[i] == paths[i]);
        let k = choose|k: int| 0 <= k < paths2.len() && paths2[k] == paths[i] && eps2[k] == eps[i];
        assert(t1.endpoints[split_path(paths[i])] == eps[i]);
        assert(t2.endpoints[split_path(paths2[k])] == eps2[k]);
    }
    assert(t1.endpoints =~= t2.endpoints);
    assert(t1.nodes =~= t2.nodes);
}


impl<E> RouteNode<E> {
    /// `newer` keeps the keys of this node at their places and only adds
    /// keys after them, its `matches` only grows at its end, and each old
    /// child has grown in the same way into the child at its index.
    spec fn grown_into(&self, newer: RouteNode<E>) -> bool
        decreases self,
    {
        &&& self.keys@.len() <= newer.keys@.len()
        &&& newer.keys@.take(self.keys@.len() as int) == self.keys@
        &&& self.matches@.len() <= newer.matches@.len()
        &&& newer.matches@.take(self.matches@.len() as int) == self.matches@
        &&& self.routers@.len() <= newer.routers@.len()
        &&& forall|i: int|
            0 <= i < self.routers@.len() ==> (#[trigger] self.routers@[i]).grown_into(
                newer.routers@[i],
            )
    }

    proof fn lemma_grown_refl(&self)
        ensures
            self.grown_into(*self),
        decreases self,
    {
        assert(self.keys@.take(self.keys@.len() as int) =~= self.keys@);
        assert(self.matches@.take(self.matches@.len() as int) =~= self.matches@);
        assert forall|i: int| 0 <= i < self.routers@.len() implies (#[trigger] self.routers@[i]).grown_into(
            self.routers@[i],
        ) by {
            self.routers@[i].lemma_grown_refl();
        }
    }
}

impl<E> Router<E> {
    /// `newer` holds every node of this router with its children's keys at
    /// the same places: new keys only come after the old ones, and each
    /// node's `matches` only grows at its end.
    pub closed spec fn extends_to(&self, newer: Router<E>) -> bool {
        self.root.grown_into(newer.root)
    }
}

} // verus!
