//! The queue of route paths awaiting a speculative code preload, and the
//! path part of a requested location.

use vstd::prelude::*;

verus! {

/// Whether `c` ends the path part of a location: `?` starts the query and
/// `#` the fragment.
pub open spec fn is_path_delimiter(c: char) -> bool {
    c == '?' || c == '#'
}

/// The length of the path part of `s`: the position of its first `?` or
/// `#`, or its whole length when it has neither.
pub open spec fn path_len(s: Seq<char>) -> nat
    decreases s.len(),
{
    if s.len() == 0 || is_path_delimiter(s[0]) {
        0
    } else {
        1 + path_len(s.drop_first())
    }
}

/// The path part of `s`, without any query or fragment.
pub open spec fn path_part(s: Seq<char>) -> Seq<char> {
    s.take(path_len(s) as int)
}

/// `path_len` counts the characters before the first delimiter.
proof fn lemma_path_len(s: Seq<char>)
    ensures
        path_len(s) <= s.len(),
        forall|i: int| 0 <= i < path_len(s) ==> !is_path_delimiter(#[trigger] s[i]),
        path_len(s) < s.len() ==> is_path_delimiter(s[path_len(s) as int]),
    decreases s.len(),
{
    if s.len() > 0 && !is_path_delimiter(s[0]) {
        lemma_path_len(s.drop_first());
        assert forall|i: int| 0 <= i < path_len(s) implies !is_path_delimiter(#[trigger] s[i]) by {
            if i > 0 {
                assert(s[i] == s.drop_first()[i - 1]);
            }
        }
    }
}

/// The path part of a location is the prefix of it before its first `?` or
/// `#`, the whole location when it has neither: it holds no `?` and no `#`,
/// every character up to its end is kept, and the location continues past it
/// only with a `?` or a `#`.
pub proof fn lemma_path_part(s: Seq<char>)
    ensures
        path_part(s).len() <= s.len(),
        path_part(s) == s.take(path_part(s).len() as int),
        forall|i: int| 0 <= i < path_part(s).len() ==> #[trigger] path_part(s)[i] != '?' && path_part(s)[i] != '#',
        path_part(s).len() < s.len() ==> (s[path_part(s).len() as int] == '?' || s[path_part(s).len() as int] == '#'),
        (forall|i: int| 0 <= i < s.len() ==> #[trigger] s[i] != '?' && s[i] != '#') ==> path_part(s) == s,
{
    lemma_path_len(s);
    let n = path_len(s);
    assert forall|i: int| 0 <= i < path_part(s).len() implies #[trigger] path_part(s)[i] != '?' && path_part(s)[i] != '#' by {
        assert(path_part(s)[i] == s[i]);
        assert(!is_path_delimiter(s[i]));
    }
    if forall|i: int| 0 <= i < s.len() ==> #[trigger] s[i] != '?' && s[i] != '#' {
        if n < s.len() {
            assert(s[n as int] != '?' && s[n as int] != '#');
        }
        assert(path_part(s) =~= s);
    }
}

/// The path of a location, with any query (`?...`) or fragment (`#...`)
/// dropped: route matching works on the path only.
pub fn strip_query_and_fragment(path: &str) -> (r: String)
    ensures
        r@ == path_part(path@),
{
    let len = path.unicode_len();
    let mut i: usize = 0;
    while i < len
        invariant
            len == path@.len(),
            0 <= i <= len,
            forall|j: int| 0 <= j < i ==> !is_path_delimiter(#[trigger] path@[j]),
        ensures
            0 <= i <= len,
            forall|j: int| 0 <= j < i ==> !is_path_delimiter(#[trigger] path@[j]),
            i == len || is_path_delimiter(path@[i as int]),
        decreases len - i,
    {
        let c = path.get_char(i);
        if c == '?' || c == '#' {
            break;
        }
        i = i + 1;
    }
    proof {
        lemma_path_len(path@);
        let n = path_len(path@);
        if n < i {
            assert(is_path_delimiter(path@[n as int]));
        }
        if i < n {
            assert(is_path_delimiter(path@[i as int]) || i == len);
        }
        assert(n == i);
    }
    let r = path.substring_char(0, i).to_owned();
    proof {
        assert(r@ =~= path_part(path@));
    }
    r
}

/// The queue after enqueuing each of `paths` in order.
pub open spec fn enqueue_all(queue: Seq<Seq<char>>, paths: Seq<Seq<char>>) -> Seq<Seq<char>>
    decreases paths.len(),
{
    if paths.len() == 0 {
        queue
    } else {
        enqueue_all(queue, paths.drop_last()).push(paths.last())
    }
}

/// The queue is first in, first out: paths enqueued one by one into a queue
/// come out of it, when taken, after its earlier contents and in the order
/// they went in.
pub proof fn lemma_queue_fifo(queue: Seq<Seq<char>>, paths: Seq<Seq<char>>)
    ensures
        enqueue_all(queue, paths) == queue + paths,
    decreases paths.len(),
{
    if paths.len() > 0 {
        lemma_queue_fifo(queue, paths.drop_last());
        assert(queue + paths =~= (queue + paths.drop_last()).push(paths.last()));
    } else {
        assert(queue + paths =~= queue);
    }
}

/// A FIFO of paths awaiting a speculative code-warm.
pub struct RoutePreloadQueue {
    paths: Vec<String>,
}

impl View for RoutePreloadQueue {
    /// The pending paths, oldest first.
    type V = Seq<Seq<char>>;

    closed spec fn view(&self) -> Seq<Seq<char>> {
        self.paths@.map_values(|p: String| p@)
    }
}

impl RoutePreloadQueue {
    /// An empty queue.
    pub fn new() -> (r: Self)
        ensures
            r@ == Seq::<Seq<char>>::empty(),
    {
        let r = RoutePreloadQueue { paths: Vec::new() };
        proof {
            assert(r@ =~= Seq::<Seq<char>>::empty());
        }
        r
    }

    /// Adds a path at the end of the queue.
    pub fn enqueue(&mut self, path: String)
        ensures
            final(self)@ == old(self)@.push(path@),
    {
        let ghost p = path@;
        self.paths.push(path);
        proof {
            assert(self@ =~= old(self)@.push(p));
        }
    }

    /// Takes the pending paths, oldest first, leaving the queue empty.
    pub fn take(&mut self) -> (r: Vec<String>)
        ensures
            r@.map_values(|p: String| p@) == old(self)@,
            final(self)@ == Seq::<Seq<char>>::empty(),
    {
        let mut r: Vec<String> = Vec::new();
        std::mem::swap(&mut r, &mut self.paths);
        proof {
            assert(self@ =~= Seq::<Seq<char>>::empty());
            assert(r@.map_values(|p: String| p@) =~= old(self)@);
        }
        r
    }
}

} // verus!
