use vstd::prelude::*;
use vstd::std_specs::cmp::PartialEqSpec;
use vstd::string::StringExecFns;
use vstd::string::to_string_from_display_ensures;
use std::fmt::Display;

/// # Array Queue
pub mod array_queue;
pub use array_queue::ArrayQueue;

/// # Array Stack
pub mod array_stack;
pub use array_stack::ArrayStack;

/// # HashMap
pub mod hashmap;
pub use hashmap::HashMap;

/// # Linked List
pub mod linked_list;
pub use linked_list::{LinkedList, Node};

/// # Linked Queue
pub mod linked_queue;
pub use linked_queue::LinkedQueue;

/// # Linked Stack
pub mod linked_stack;
pub use linked_stack::LinkedStack;

/// # Sequential List
pub mod sqlist;
pub use sqlist::SqList;

/// # Static linked list
pub mod static_linked_list;
pub use static_linked_list::SLinkedList;

/// # Vector
pub mod vector;
pub use vector::Vector;

verus! {

/// The fixed capacity of the array-backed containers.
pub const MAXLEN: usize = 100;

/// A buffer of `MAXLEN` default values.
pub fn filled_buffer<T: Copy + Default>() -> (r: Vec<T>)
    ensures
        r@.len() == MAXLEN,
{
    let mut v: Vec<T> = Vec::with_capacity(MAXLEN);
    let mut i: usize = 0;
    while i < MAXLEN
        invariant
            i <= MAXLEN,
            v@.len() == i,
        decreases MAXLEN - i,
    {
        v.push(T::default());
        i = i + 1;
    }
    v
}

/// The entry at position `i` of `s`, as a link: nothing outside `s`.
pub open spec fn link_at(s: Seq<usize>, i: int) -> Option<usize> {
    if 0 <= i < s.len() {
        Some(s[i])
    } else {
        None
    }
}

/// Whether some element of `s` equals `e`.
pub open spec fn seq_has<T: PartialEq>(s: Seq<T>, e: &T) -> bool {
    exists|i: int| 0 <= i < s.len() && #[trigger] s[i].eq_spec(e)
}

/// `i` is the position of the first element of `s` that equals `e`.
pub open spec fn first_match<T: PartialEq>(s: Seq<T>, e: &T, i: int) -> bool {
    &&& 0 <= i < s.len()
    &&& s[i].eq_spec(e)
    &&& forall|j: int| 0 <= j < i ==> !(#[trigger] s[j].eq_spec(e))
}

/// The positions of the elements of `s` that equal `e`, in increasing order.
pub open spec fn match_positions<T: PartialEq>(s: Seq<T>, e: &T) -> Seq<usize>
    decreases s.len(),
{
    if s.len() == 0 {
        Seq::empty()
    } else {
        let rest = match_positions(s.drop_last(), e);
        if s.last().eq_spec(e) {
            rest.push((s.len() - 1) as usize)
        } else {
            rest
        }
    }
}

/// The position of the first element among the first `n` of `s` equal to `e`.
pub fn slice_find<T: PartialEq>(s: &[T], n: usize, e: &T) -> (r: Option<usize>)
    requires
        n <= s@.len(),
    ensures
        T::obeys_eq_spec() ==> match r {
            Some(i) => first_match(s@.subrange(0, n as int), e, i as int),
            None => !seq_has(s@.subrange(0, n as int), e),
        },
{
    let mut i: usize = 0;
    while i < n
        invariant
            n <= s@.len(),
            i <= n,
            T::obeys_eq_spec() ==> forall|j: int| 0 <= j < i ==> !(#[trigger] s@[j].eq_spec(e)),
        decreases n - i,
    {
        if s[i] == *e {
            return Some(i);
        }
        i = i + 1;
    }
    None
}

/// The positions of all elements among the first `n` of `s` equal to `e`,
/// in increasing order.
pub fn slice_find_all<T: PartialEq>(s: &[T], n: usize, e: &T) -> (r: Vec<usize>)
    requires
        n <= s@.len(),
    ensures
        T::obeys_eq_spec() ==> r@ == match_positions(s@.subrange(0, n as int), e),
{
    let mut out: Vec<usize> = Vec::new();
    let mut i: usize = 0;
    while i < n
        invariant
            n <= s@.len(),
            i <= n,
            T::obeys_eq_spec() ==> out@ == match_positions(s@.subrange(0, i as int), e),
        decreases n - i,
    {
        let hit = s[i] == *e;
        proof {
            let pre = s@.subrange(0, i as int + 1);
            assert(pre.drop_last() =~= s@.subrange(0, i as int));
        }
        if hit {
            out.push(i);
        }
        i = i + 1;
    }
    out
}

/// `parts` joined, with `sep` between neighbours.
pub open spec fn joined(parts: Seq<Seq<char>>, sep: Seq<char>) -> Seq<char>
    decreases parts.len(),
{
    if parts.len() == 0 {
        Seq::empty()
    } else if parts.len() == 1 {
        parts[0]
    } else {
        joined(parts.drop_last(), sep) + sep + parts.last()
    }
}

/// `texts[i]` is the text that `Display` writes for `s[i]`, for every `i`.
pub open spec fn displayed<T: Display>(s: Seq<T>, texts: Seq<String>) -> bool {
    &&& texts.len() == s.len()
    &&& forall|i: int| 0 <= i < s.len() ==> #[trigger] to_string_from_display_ensures::<T>(&s[i], texts[i])
}

/// The characters of each text.
pub open spec fn chars_of(texts: Seq<String>) -> Seq<Seq<char>> {
    texts.map_values(|t: String| t@)
}

/// `texts` joined by `sep`, in square brackets.
pub open spec fn bracketed(texts: Seq<String>, sep: Seq<char>) -> Seq<char> {
    seq!['['] + joined(chars_of(texts), sep) + seq![']']
}

/// The separator of array-like renderings.
pub open spec fn comma_sep() -> Seq<char> {
    seq![',', ' ']
}

/// The separator of doubly-linked renderings.
pub open spec fn link_sep() -> Seq<char> {
    seq![' ', '<', '-', '>', ' ']
}

/// The separator of a stack's rendering, bottom to top.
pub open spec fn stack_sep() -> Seq<char> {
    seq![' ', '-', '>', ' ']
}

/// The elements of `s` in square brackets, separated by `", "`.
pub fn render_commas<T: Display>(s: &[T]) -> (r: String)
    ensures
        exists|texts: Seq<String>| displayed(s@, texts) && r@ == bracketed(texts, comma_sep()),
{
    let r = render(s, "[", ", ", "]");
    proof {
        reveal_strlit("[");
        reveal_strlit(", ");
        reveal_strlit("]");
        let texts = choose|texts: Seq<String>|
            displayed(s@, texts) && r@ == "["@ + joined(chars_of(texts), ", "@) + "]"@;
        assert("["@ =~= seq!['[']);
        assert("]"@ =~= seq![']']);
        assert(", "@ =~= seq![',', ' ']);
        assert(r@ == bracketed(texts, comma_sep()));
    }
    r
}

/// The elements of `s` in square brackets, separated by `" <-> "`.
pub fn render_links<T: Display>(s: &[T]) -> (r: String)
    ensures
        exists|texts: Seq<String>| displayed(s@, texts) && r@ == bracketed(texts, link_sep()),
{
    let r = render(s, "[", " <-> ", "]");
    proof {
        reveal_strlit("[");
        reveal_strlit(" <-> ");
        reveal_strlit("]");
        let texts = choose|texts: Seq<String>|
            displayed(s@, texts) && r@ == "["@ + joined(chars_of(texts), " <-> "@) + "]"@;
        assert("["@ =~= seq!['[']);
        assert("]"@ =~= seq![']']);
        assert(" <-> "@ =~= seq![' ', '<', '-', '>', ' ']);
        assert(r@ == bracketed(texts, link_sep()));
    }
    r
}

/// The elements of `s` in square brackets, separated by `" -> "`.
pub fn render_arrows<T: Display>(s: &[T]) -> (r: String)
    ensures
        exists|texts: Seq<String>| displayed(s@, texts) && r@ == bracketed(texts, stack_sep()),
{
    let r = render(s, "[", " -> ", "]");
    proof {
        reveal_strlit("[");
        reveal_strlit(" -> ");
        reveal_strlit("]");
        let texts = choose|texts: Seq<String>|
            displayed(s@, texts) && r@ == "["@ + joined(chars_of(texts), " -> "@) + "]"@;
        assert("["@ =~= seq!['[']);
        assert("]"@ =~= seq![']']);
        assert(" -> "@ =~= seq![' ', '-', '>', ' ']);
        assert(r@ == bracketed(texts, stack_sep()));
    }
    r
}

/// The elements of `s` as `Display` writes them, between `open` and
/// `close`, separated by `sep`.
pub fn render<T: Display>(s: &[T], open: &str, sep: &str, close: &str) -> (r: String)
    ensures
        exists|texts: Seq<String>| displayed(s@, texts) && r@ == open@ + joined(chars_of(texts), sep@) + close@,
{
    let mut out = String::from_str(open);
    let ghost mut texts: Seq<String> = Seq::empty();
    let mut i: usize = 0;
    while i < s.len()
        invariant
            i <= s@.len(),
            texts.len() == i,
            forall|t: int| 0 <= t < i ==> #[trigger] to_string_from_display_ensures::<T>(&s@[t], texts[t]),
            out@ == open@ + joined(chars_of(texts), sep@),
        decreases s@.len() - i,
    {
        if i > 0 {
            out.append(sep);
        }
        let text = s[i].to_string();
        out.append(text.as_str());
        proof {
            let nt = texts.push(text);
            assert(chars_of(nt).drop_last() =~= chars_of(texts));
            assert(chars_of(nt).last() == text@);
            if i == 0 {
                assert(joined(chars_of(nt), sep@) =~= text@);
            }
            assert forall|t: int| 0 <= t < i + 1 implies #[trigger] to_string_from_display_ensures::<T>(&s@[t], nt[t]) by {
                if t < i {
                    assert(nt[t] == texts[t]);
                }
            }
            texts = nt;
        }
        i = i + 1;
    }
    out.append(close);
    proof {
        assert(displayed(s@, texts));
    }
    out
}

} // verus!
