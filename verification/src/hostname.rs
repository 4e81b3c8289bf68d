//! Hostnames and their order.
use vstd::prelude::*;
use vstd::utf8::encode_utf8;

use crate::ord_map::{KeyOrder, OrdKey};

verus! {

/// The name of a host.
///
/// Which texts are proper hostnames is for whoever makes one to say: the resolver looks a
/// name up, compares it with others and hands it back, and reads nothing else in it.
#[derive(Debug, PartialEq, Eq)]
pub struct Hostname {
    name: String,
}

impl View for Hostname {
    type V = Seq<char>;

    closed spec fn view(&self) -> Seq<char> {
        self.name@
    }
}

impl Clone for Hostname {
    fn clone(&self) -> (copy: Self)
        ensures
            copy@ == self@,
    {
        Hostname { name: self.name.clone() }
    }
}

impl Hostname {
    pub fn new(name: String) -> (hostname: Hostname)
        ensures
            hostname@ == name@,
    {
        Hostname { name }
    }

    pub fn as_str(&self) -> (name: &str)
        ensures
            name@ == self@,
    {
        self.name.as_str()
    }
}

/// `a` and `b` agree before place `i`, where either `a` ends and `b` goes on, or `a` has the
/// smaller byte.
pub open spec fn first_smaller_at(a: Seq<u8>, b: Seq<u8>, i: int) -> bool {
    &&& 0 <= i <= a.len()
    &&& i < b.len()
    &&& forall|j: int| 0 <= j < i ==> a[j] == #[trigger] b[j]
    &&& i < a.len() ==> a[i] < b[i]
}

/// The order of byte strings in a dictionary.
pub open spec fn bytes_less(a: Seq<u8>, b: Seq<u8>) -> bool {
    exists|i: int| #[trigger] first_smaller_at(a, b, i)
}

/// The order of hostnames: that of their UTF-8 bytes in a dictionary.
pub open spec fn name_less(a: Seq<char>, b: Seq<char>) -> bool {
    bytes_less(encode_utf8(a), encode_utf8(b))
}

proof fn lemma_bytes_total(a: Seq<u8>, b: Seq<u8>, i: int)
    requires
        0 <= i <= a.len(),
        i <= b.len(),
        forall|j: int| 0 <= j < i ==> a[j] == #[trigger] b[j],
    ensures
        a == b || bytes_less(a, b) || bytes_less(b, a),
    decreases a.len() - i,
{
    if i == a.len() && i == b.len() {
        assert(a =~= b);
    } else if i == a.len() || (i < b.len() && a[i] < b[i]) {
        assert(first_smaller_at(a, b, i));
    } else if i == b.len() || b[i] < a[i] {
        assert(first_smaller_at(b, a, i));
    } else {
        lemma_bytes_total(a, b, i + 1);
    }
}

proof fn lemma_bytes_transitive(a: Seq<u8>, b: Seq<u8>, c: Seq<u8>)
    requires
        bytes_less(a, b),
        bytes_less(b, c),
    ensures
        bytes_less(a, c),
{
    let i = choose|i: int| #[trigger] first_smaller_at(a, b, i);
    let j = choose|j: int| #[trigger] first_smaller_at(b, c, j);
    let k = if i < j { i } else { j };
    assert forall|l: int| 0 <= l < k implies a[l] == #[trigger] c[l] by {
        assert(a[l] == b[l] && b[l] == c[l]);
    }
    assert(k < i ==> a[k] == b[k]);
    assert(k < j ==> b[k] == c[k]);
    assert(first_smaller_at(a, c, k));
}

/// The first byte in which two names differ decides which stands first, and a name stands
/// before every longer one that starts with it.
pub proof fn names_stand_in_the_order_of_their_bytes(a: Seq<char>, b: Seq<char>, i: int)
    requires
        0 <= i <= encode_utf8(a).len(),
        i < encode_utf8(b).len(),
        encode_utf8(a).take(i) == encode_utf8(b).take(i),
        i < encode_utf8(a).len() ==> encode_utf8(a)[i] < encode_utf8(b)[i],
    ensures
        name_less(a, b),
        !name_less(b, a),
{
    let (a8, b8) = (encode_utf8(a), encode_utf8(b));
    assert forall|j: int| 0 <= j < i implies a8[j] == #[trigger] b8[j] by {
        assert(a8.take(i)[j] == b8.take(i)[j]);
    }
    assert(first_smaller_at(a8, b8, i));
    if bytes_less(b8, a8) {
        lemma_bytes_transitive(a8, b8, a8);
        let k = choose|k: int| #[trigger] first_smaller_at(a8, a8, k);
        assert(first_smaller_at(a8, a8, k));
    }
}

/// Of two names, one stands before the other, unless they are the same; then neither does.
pub proof fn one_of_two_names_stands_first(a: Seq<char>, b: Seq<char>)
    ensures
        a == b <==> !name_less(a, b) && !name_less(b, a),
        !(name_less(a, b) && name_less(b, a)),
{
    <Hostname as OrdKey>::key_order(a, b, a);
}

impl OrdKey for Hostname {
    open spec fn key_less(a: Seq<char>, b: Seq<char>) -> bool {
        name_less(a, b)
    }

    proof fn key_order(a: Seq<char>, b: Seq<char>, c: Seq<char>) {
        let (a8, b8, c8) = (encode_utf8(a), encode_utf8(b), encode_utf8(c));
        if bytes_less(a8, a8) {
            let i = choose|i: int| #[trigger] first_smaller_at(a8, a8, i);
            assert(first_smaller_at(a8, a8, i));
        }
        if bytes_less(a8, b8) && bytes_less(b8, c8) {
            lemma_bytes_transitive(a8, b8, c8);
        }
        lemma_bytes_total(a8, b8, 0);
        vstd::utf8::encode_utf8_decode_utf8(a);
        vstd::utf8::encode_utf8_decode_utf8(b);
    }

    fn compare(&self, other: &Self) -> (order: KeyOrder) {
        let a = self.name.as_str().as_bytes();
        let b = other.name.as_str().as_bytes();
        let mut i: usize = 0;
        while i < a.len() && i < b.len()
            invariant
                i <= a@.len(),
                i <= b@.len(),
                a@ == encode_utf8(self@),
                b@ == encode_utf8(other@),
                forall|j: int| 0 <= j < i ==> a@[j] == #[trigger] b@[j],
            decreases a@.len() - i,
        {
            if a[i] < b[i] {
                assert(first_smaller_at(a@, b@, i as int));
                return KeyOrder::Less;
            }
            if b[i] < a[i] {
                assert(first_smaller_at(b@, a@, i as int));
                return KeyOrder::Greater;
            }
            i = i + 1;
        }
        if i < b.len() {
            assert(first_smaller_at(a@, b@, i as int));
            KeyOrder::Less
        } else if i < a.len() {
            assert(first_smaller_at(b@, a@, i as int));
            KeyOrder::Greater
        } else {
            proof {
                assert(a@ =~= b@);
                vstd::utf8::encode_utf8_decode_utf8(self@);
                vstd::utf8::encode_utf8_decode_utf8(other@);
            }
            KeyOrder::Equal
        }
    }
}

} // verus!
