use crate::decimal::{decimal, push_decimal};
use crate::digest::{hex_of, to_hex};
use crate::object::{Kind, Object, ObjectError};
use vstd::prelude::*;

verus! {

/// Who made a commit and when: a name, an e-mail address, seconds since the
/// Unix epoch and a time-zone offset such as `+0200`.
#[derive(Debug, Clone)]
pub struct Signature {
    pub name: Vec<u8>,
    pub email: Vec<u8>,
    pub time: u64,
    pub timezone: Vec<u8>,
}

/// `<name> <<email>> <seconds> <offset>`
pub open spec fn signature_bytes(s: Signature) -> Seq<u8> {
    s.name@ + seq![32u8, 60] + s.email@ + seq![62u8, 32] + decimal(s.time as nat) + seq![32u8]
        + s.timezone@
}

/// One `parent <hex id>` line per parent, in order.
pub open spec fn parent_lines(parents: Seq<[u8; 20]>) -> Seq<u8>
    decreases parents.len(),
{
    if parents.len() == 0 {
        Seq::empty()
    } else {
        parent_lines(parents.drop_last()) + seq![112u8, 97, 114, 101, 110, 116, 32] + hex_of(
            parents.last()@,
        ) + seq![10u8]
    }
}

/// The text of a commit: its tree, its parents, author and committer lines,
/// a blank line and the message, which ends with a newline.
pub open spec fn commit_text(
    tree: Seq<u8>,
    parents: Seq<[u8; 20]>,
    message: Seq<u8>,
    author: Signature,
) -> Seq<u8> {
    seq![116u8, 114, 101, 101, 32] + hex_of(tree) + seq![10u8] + parent_lines(parents) + seq![
        97u8,
        117,
        116,
        104,
        111,
        114,
        32,
    ] + signature_bytes(author) + seq![10u8] + seq![99u8, 111, 109, 109, 105, 116, 116, 101, 114, 32]
        + signature_bytes(author) + seq![10u8, 10] + message + seq![10u8]
}

fn push_signature(out: &mut Vec<u8>, s: &Signature)
    ensures
        final(out)@ == old(out)@ + signature_bytes(*s),
{
    out.extend_from_slice(s.name.as_slice());
    out.push(32u8);
    out.push(60u8);
    out.extend_from_slice(s.email.as_slice());
    out.push(62u8);
    out.push(32u8);
    push_decimal(out, s.time as u128);
    out.push(32u8);
    out.extend_from_slice(s.timezone.as_slice());
    assert(final(out)@ =~= old(out)@ + signature_bytes(*s));
}

/// The payload of a commit of tree `tree` with the given parents, message and
/// author, who is also the committer.
pub fn commit_payload(
    tree: &[u8; 20],
    parents: &Vec<[u8; 20]>,
    message: &[u8],
    author: &Signature,
) -> (r: Vec<u8>)
    ensures
        r@ == commit_text(tree@, parents@, message@, *author),
{
    let mut out: Vec<u8> = vec![116u8, 114, 101, 101, 32];
    let h = to_hex(tree);
    out.extend_from_slice(h.as_slice());
    out.push(10u8);
    let ghost head = out@;
    assert(head =~= seq![116u8, 114, 101, 101, 32] + hex_of(tree@) + seq![10u8]);
    let mut i: usize = 0;
    assert(parents@.take(0) =~= Seq::<[u8; 20]>::empty());
    assert(out@ =~= head + parent_lines(parents@.take(0)));
    while i < parents.len()
        invariant
            i <= parents@.len(),
            out@ == head + parent_lines(parents@.take(i as int)),
        decreases parents@.len() - i,
    {
        out.extend_from_slice(&[112u8, 97, 114, 101, 110, 116, 32]);
        let p = to_hex(&parents[i]);
        out.extend_from_slice(p.as_slice());
        out.push(10u8);
        assert(parents@.take(i + 1).drop_last() =~= parents@.take(i as int));
        assert(out@ =~= head + parent_lines(parents@.take(i + 1)));
        i = i + 1;
    }
    assert(parents@.take(parents@.len() as int) =~= parents@);
    out.extend_from_slice(&[97u8, 117, 116, 104, 111, 114, 32]);
    push_signature(&mut out, author);
    out.push(10u8);
    out.extend_from_slice(&[99u8, 111, 109, 109, 105, 116, 116, 101, 114, 32]);
    push_signature(&mut out, author);
    out.push(10u8);
    out.push(10u8);
    out.extend_from_slice(message);
    out.push(10u8);
    assert(out@ =~= commit_text(tree@, parents@, message@, *author));
    out
}

/// The commit object over `tree`, the object that `tree_id` resolved to.
/// Fails with `Precondition`, and makes nothing to store, where that object
/// is not a tree.
pub fn compose_commit(
    tree: &Object,
    tree_id: &[u8; 20],
    parents: &Vec<[u8; 20]>,
    message: &[u8],
    author: &Signature,
) -> (r: Result<Object, ObjectError>)
    ensures
        tree@.kind != Kind::Tree <==> r == Err::<Object, ObjectError>(ObjectError::Precondition),
        tree@.kind == Kind::Tree <==> r is Ok,
        r matches Ok(o) ==> o@.kind == Kind::Commit && o@.payload == commit_text(
            tree_id@,
            parents@,
            message@,
            *author,
        ),
{
    if *tree.kind() != Kind::Tree {
        return Err(ObjectError::Precondition);
    }
    let payload = commit_payload(tree_id, parents, message, author);
    Ok(Object::from_bytes(Kind::Commit, payload.as_slice()))
}

} // verus!
