use vstd::prelude::*;

verus! {

/// The only supported rotation direction.
pub enum RotatingDirection {
    Right,
}

impl RotatingDirection {
    /// The direction name is exact; a caller must not pass any other string.
    pub fn from_str(s: &str) -> (r: RotatingDirection)
        requires
            s@ == "right"@,
        ensures
            r == RotatingDirection::Right,
    {
        RotatingDirection::Right
    }
}

/// A singly linked list of integers.
#[derive(Debug)]
pub struct ListNode {
    pub val: i32,
    pub next: Option<Box<ListNode>>,
}

/// The sequence of values a node and its successors hold.
pub open spec fn node_seq(node: ListNode) -> Seq<i32>
    decreases node,
{
    match node.next {
        Some(b) => seq![node.val] + node_seq(*b),
        None => seq![node.val],
    }
}

impl View for ListNode {
    type V = Seq<i32>;

    open spec fn view(&self) -> Seq<i32> {
        node_seq(*self)
    }
}

/// The sequence a list head stands for; an absent head is the empty list.
pub open spec fn list_view(l: Option<Box<ListNode>>) -> Seq<i32> {
    match l {
        Some(node) => node@,
        None => Seq::empty(),
    }
}

/// `s` rotated to the right by `k` places: the last `k % len` elements move
/// to the front.
pub open spec fn rotated_right(s: Seq<i32>, k: int) -> Seq<i32>
    recommends
        s.len() > 0,
        k >= 0,
{
    let r = k % (s.len() as int);
    s.skip(s.len() - r) + s.take(s.len() - r)
}

impl ListNode {
    pub fn new(val: i32) -> (r: ListNode)
        ensures
            r@ == seq![val],
    {
        ListNode { next: None, val }
    }

    pub fn from_vec(vec: Vec<i32>) -> (r: Option<Box<ListNode>>)
        ensures
            list_view(r) == vec@,
    {
        let mut current: Option<Box<ListNode>> = None;
        let mut i: usize = vec.len();
        while i > 0
            invariant
                i <= vec@.len(),
                list_view(current) == vec@.skip(i as int),
            decreases i,
        {
            i -= 1;
            let mut node = ListNode::new(vec[i]);
            node.next = current;
            current = Some(Box::new(node));
            proof {
                assert(vec@.skip(i as int) =~= seq![vec@[i as int]] + vec@.skip(i + 1));
                assert(list_view(current) =~= vec@.skip(i as int));
            }
        }
        proof {
            assert(vec@.skip(0) =~= vec@);
        }
        current
    }

    pub fn to_vec(head: Option<Box<ListNode>>) -> (r: Vec<i32>)
        ensures
            r@ == list_view(head),
    {
        let mut vec: Vec<i32> = Vec::new();
        let mut current = head;
        while current.is_some()
            invariant
                vec@ + list_view(current) == list_view(head),
            decreases list_view(current).len(),
        {
            let node = current.unwrap();
            let ListNode { val, next } = *node;
            vec.push(val);
            current = next;
            proof {
                assert(vec@ + list_view(current) =~= list_view(head));
            }
        }
        proof {
            assert(vec@ =~= list_view(head));
        }
        vec
    }

    /// Cut the list after its first `n` nodes; what follows, if anything,
    /// comes back as a list of its own.
    pub fn split_at(&mut self, n: usize) -> (r: Option<ListNode>)
        requires
            n >= 1,
        ensures
            n < old(self)@.len() ==> final(self)@ == old(self)@.take(n as int) && (r matches Some(
                rest,
            ) && rest@ == old(self)@.skip(n as int)),
            n >= old(self)@.len() ==> final(self)@ == old(self)@ && r is None,
        decreases old(self)@.len(),
    {
        if n == 1 {
            let rest = self.next.take();
            match rest {
                Some(b) => {
                    proof {
                        assert(self@ =~= old(self)@.take(1));
                        assert(b@ =~= old(self)@.skip(1));
                    }
                    Some(*b)
                }
                None => {
                    proof {
                        assert(self@ =~= old(self)@);
                    }
                    None
                }
            }
        } else {
            let nxt = self.next.take();
            match nxt {
                Some(mut b) => {
                    let r = b.split_at(n - 1);
                    self.next = Some(b);
                    proof {
                        if n < old(self)@.len() {
                            assert(self@ =~= old(self)@.take(n as int));
                            assert((r matches Some(rest) ==> rest@ =~= old(self)@.skip(n as int)));
                        } else {
                            assert(self@ =~= old(self)@);
                        }
                    }
                    r
                }
                None => {
                    proof {
                        assert(self@ =~= old(self)@);
                    }
                    None
                }
            }
        }
    }

    /// Append a whole list at the tail.
    pub fn extend_from_list(&mut self, new_tail: Box<ListNode>)
        ensures
            final(self)@ == old(self)@ + new_tail@,
        decreases old(self)@.len(),
    {
        let nxt = self.next.take();
        match nxt {
            Some(mut b) => {
                b.extend_from_list(new_tail);
                self.next = Some(b);
                proof {
                    assert(self@ =~= old(self)@ + new_tail@);
                }
            }
            None => {
                self.next = Some(new_tail);
                proof {
                    assert(self@ =~= old(self)@ + new_tail@);
                }
            }
        }
    }
}

/// Rotate a non-empty list to the right by `k` places.
pub fn rotate_right(head: Option<Box<ListNode>>, k: i32) -> (r: Option<Box<ListNode>>)
    requires
        head is Some,
        k >= 0,
        list_view(head).len() <= usize::MAX,
    ensures
        list_view(r) == rotated_right(list_view(head), k as int),
{
    let ghost s = list_view(head);
    let mut count: usize = 0;
    let mut cursor: &Option<Box<ListNode>> = &head;
    while cursor.is_some()
        invariant
            count + list_view(*cursor).len() == s.len(),
            s.len() <= usize::MAX,
        decreases list_view(*cursor).len(),
    {
        let node = cursor.as_ref().unwrap();
        count += 1;
        cursor = &node.next;
    }
    let rotating_index = count - (k as usize) % count;
    if rotating_index == count {
        proof {
            assert(k as int % (s.len() as int) == 0);
            assert(rotated_right(s, k as int) =~= s);
        }
        return head;
    }
    let boxed = head.unwrap();
    let mut front: ListNode = *boxed;
    let new_head = front.split_at(rotating_index);
    match new_head {
        Some(mut head_pointer) => {
            head_pointer.extend_from_list(Box::new(front));
            proof {
                assert(head_pointer@ =~= rotated_right(s, k as int));
            }
            Some(Box::new(head_pointer))
        }
        None => {
            proof {
                assert(false);
            }
            None
        }
    }
}

/// Rotate the array right by `k` places, going through the linked list.
pub fn rotating_list_right(array: Vec<i32>, k: i32) -> (r: Result<Vec<i32>, String>)
    requires
        array@.len() > 0,
        k >= 0,
    ensures
        (r matches Ok(v) && v@ == rotated_right(array@, k as int)),
{
    // A vector is never longer than usize::MAX, so neither is the list.
    let n = array.len();
    let head = ListNode::from_vec(array);
    proof {
        assert(list_view(head).len() == n);
    }
    let rotated_head = rotate_right(head, k);
    let rotated_array = ListNode::to_vec(rotated_head);
    Ok(rotated_array)
}

/// Rotate the array by `k` places in the named direction ("right" is the
/// only one there is).
pub fn rotating_list(array: Vec<i32>, k: i32, rotating_direction: &String) -> (r: Result<
    Vec<i32>,
    String,
>)
    requires
        rotating_direction@ == "right"@,
        array@.len() > 0,
        k >= 0,
    ensures
        (r matches Ok(v) && v@ == rotated_right(array@, k as int)),
{
    match RotatingDirection::from_str(rotating_direction.as_str()) {
        RotatingDirection::Right => rotating_list_right(array, k),
    }
}

} // verus!
