use crate::object::{bytes_eq_at, copy_range, ObjectError};
use vstd::prelude::*;

verus! {

/// The file mode recorded for a tree entry.
#[derive(Debug, Clone, Copy, PartialEq, Eq, Structural)]
pub enum Mode {
    /// `40000`
    Directory,
    /// `100644`
    Regular,
    /// `100755`
    Executable,
    /// `120000`
    Symlink,
}

/// The ASCII digits of a mode as written in tree payloads.
pub open spec fn mode_bytes(m: Mode) -> Seq<u8> {
    match m {
        Mode::Directory => seq![52u8, 48, 48, 48, 48],
        Mode::Regular => seq![49u8, 48, 48, 54, 52, 52],
        Mode::Executable => seq![49u8, 48, 48, 55, 53, 53],
        Mode::Symlink => seq![49u8, 50, 48, 48, 48, 48],
    }
}

/// Mode digits hold no space and no NUL, and tell the modes apart.
pub proof fn lemma_mode_bytes(m: Mode)
    ensures
        5 <= mode_bytes(m).len() <= 6,
        forall|i: int| 0 <= i < mode_bytes(m).len() ==> #[trigger] mode_bytes(m)[i] != 32u8
            && mode_bytes(m)[i] != 0u8,
        forall|o: Mode| #[trigger] mode_bytes(o) == mode_bytes(m) ==> o == m,
{
    assert forall|o: Mode| #[trigger] mode_bytes(o) == mode_bytes(m) implies o == m by {
        if o != m {
            if mode_bytes(o).len() == mode_bytes(m).len() {
                assert(mode_bytes(o)[1] != mode_bytes(m)[1] || mode_bytes(o)[3] != mode_bytes(
                    m,
                )[3]);
            }
        }
    }
}

impl Mode {
    /// The mode's digits.
    pub fn digits(&self) -> (r: Vec<u8>)
        ensures
            r@ == mode_bytes(*self),
    {
        let r = match self {
            Mode::Directory => vec![52u8, 48, 48, 48, 48],
            Mode::Regular => vec![49u8, 48, 48, 54, 52, 52],
            Mode::Executable => vec![49u8, 48, 48, 55, 53, 53],
            Mode::Symlink => vec![49u8, 50, 48, 48, 48, 48],
        };
        assert(r@ =~= mode_bytes(*self));
        r
    }

    /// The mode whose digits are `s[start..end]`, if any.
    pub fn from_digits(s: &[u8], start: usize, end: usize) -> (r: Option<Mode>)
        requires
            start <= end <= s@.len(),
        ensures
            r matches Some(m) ==> mode_bytes(m) == s@.subrange(start as int, end as int),
            r is None ==> forall|m: Mode| mode_bytes(m) != s@.subrange(start as int, end as int),
    {
        let d = Mode::Directory.digits();
        if bytes_eq_at(s, start, end, d.as_slice()) {
            return Some(Mode::Directory);
        }
        let f = Mode::Regular.digits();
        if bytes_eq_at(s, start, end, f.as_slice()) {
            return Some(Mode::Regular);
        }
        let x = Mode::Executable.digits();
        if bytes_eq_at(s, start, end, x.as_slice()) {
            return Some(Mode::Executable);
        }
        let l = Mode::Symlink.digits();
        if bytes_eq_at(s, start, end, l.as_slice()) {
            return Some(Mode::Symlink);
        }
        None
    }

    /// The mode of a directory entry from its metadata: a directory, then a
    /// symbolic link, then a file with any execute bit set in `permissions`,
    /// then a regular file.
    pub fn from_metadata(is_dir: bool, is_symlink: bool, permissions: u32) -> (r: Mode)
        ensures
            r == (if is_dir {
                Mode::Directory
            } else if is_symlink {
                Mode::Symlink
            } else if permissions & 0o111 != 0 {
                Mode::Executable
            } else {
                Mode::Regular
            }),
    {
        if is_dir {
            Mode::Directory
        } else if is_symlink {
            Mode::Symlink
        } else if permissions & 0o111 != 0 {
            Mode::Executable
        } else {
            Mode::Regular
        }
    }
}

/// One entry of a tree: a mode, a raw file name and the child's 20-byte
/// identifier.
#[derive(Debug, Clone)]
pub struct TreeEntry {
    pub mode: Mode,
    pub name: Vec<u8>,
    pub hash: Vec<u8>,
}

/// What a tree entry is.
pub struct EntryView {
    pub mode: Mode,
    pub name: Seq<u8>,
    pub hash: Seq<u8>,
}

impl View for TreeEntry {
    type V = EntryView;

    open spec fn view(&self) -> EntryView {
        EntryView { mode: self.mode, name: self.name@, hash: self.hash@ }
    }
}

/// The views of a sequence of entries.
pub open spec fn views(es: Seq<TreeEntry>) -> Seq<EntryView> {
    es.map_values(|e: TreeEntry| e@)
}

/// A well-formed entry: a non-empty name without NUL or `/`, and a 20-byte
/// identifier.
pub open spec fn entry_wf(e: EntryView) -> bool {
    &&& e.name.len() > 0
    &&& forall|i: int| 0 <= i < e.name.len() ==> #[trigger] e.name[i] != 0u8 && e.name[i] != 47u8
    &&& e.hash.len() == 20
}

pub open spec fn entries_wf(es: Seq<EntryView>) -> bool {
    forall|i: int| 0 <= i < es.len() ==> entry_wf(#[trigger] es[i])
}

/// The encoding of one entry: `<mode> <name>\0` and the 20 raw hash bytes.
pub open spec fn entry_bytes(e: EntryView) -> Seq<u8> {
    mode_bytes(e.mode) + seq![32u8] + e.name + seq![0u8] + e.hash
}

/// A tree payload: the encodings of its entries, one after the other.
pub open spec fn tree_payload(es: Seq<EntryView>) -> Seq<u8>
    decreases es.len(),
{
    if es.len() == 0 {
        Seq::empty()
    } else {
        entry_bytes(es[0]) + tree_payload(es.drop_first())
    }
}

pub proof fn lemma_tree_payload_concat(a: Seq<EntryView>, b: Seq<EntryView>)
    ensures
        tree_payload(a + b) == tree_payload(a) + tree_payload(b),
    decreases a.len(),
{
    if a.len() == 0 {
        assert(a + b =~= b);
        assert(tree_payload(a) + tree_payload(b) =~= tree_payload(b));
    } else {
        lemma_tree_payload_concat(a.drop_first(), b);
        assert((a + b).drop_first() =~= a.drop_first() + b);
        assert(tree_payload(a + b) =~= tree_payload(a) + tree_payload(b));
    }
}

/// Encodes entries, in the order given, into a tree payload.
pub fn encode_tree(entries: &Vec<TreeEntry>) -> (r: Vec<u8>)
    ensures
        r@ == tree_payload(views(entries@)),
{
    let mut out: Vec<u8> = Vec::new();
    let mut i: usize = 0;
    while i < entries.len()
        invariant
            i <= entries@.len(),
            out@ == tree_payload(views(entries@).take(i as int)),
        decreases entries@.len() - i,
    {
        let e = &entries[i];
        let m = e.mode.digits();
        out.extend_from_slice(m.as_slice());
        out.push(32u8);
        out.extend_from_slice(e.name.as_slice());
        out.push(0u8);
        out.extend_from_slice(e.hash.as_slice());
        proof {
            let vs = views(entries@);
            lemma_tree_payload_concat(vs.take(i as int), seq![vs[i as int]]);
            assert(vs.take(i + 1) =~= vs.take(i as int) + seq![vs[i as int]]);
            assert(seq![vs[i as int]].drop_first() =~= Seq::<EntryView>::empty());
            assert(tree_payload(Seq::<EntryView>::empty()) =~= Seq::<u8>::empty());
            assert(tree_payload(seq![vs[i as int]]) =~= entry_bytes(vs[i as int]));
            assert(out@ =~= tree_payload(vs.take(i + 1)));
        }
        i = i + 1;
    }
    assert(views(entries@).take(entries@.len() as int) =~= views(entries@));
    out
}

/// The bytes of `s` from `pos` on begin with the encoding of `e`.
pub open spec fn entry_at(s: Seq<u8>, pos: int, e: EntryView) -> bool {
    &&& 0 <= pos
    &&& pos + entry_bytes(e).len() <= s.len()
    &&& s.subrange(pos, pos + entry_bytes(e).len()) == entry_bytes(e)
}

proof fn lemma_entry_layout(s: Seq<u8>, pos: int, e: EntryView)
    requires
        entry_at(s, pos, e),
        entry_wf(e),
    ensures
        ({
            let ml = mode_bytes(e.mode).len() as int;
            let nl = e.name.len() as int;
            &&& pos + ml + 1 + nl + 1 + 20 <= s.len()
            &&& s[pos + ml] == 32u8
            &&& forall|i: int| pos <= i < pos + ml ==> #[trigger] s[i] != 32u8
            &&& s.subrange(pos, pos + ml) == mode_bytes(e.mode)
            &&& s[pos + ml + 1 + nl] == 0u8
            &&& forall|i: int| pos + ml + 1 <= i < pos + ml + 1 + nl ==> #[trigger] s[i] != 0u8 && s[i] != 47u8
            &&& s.subrange(pos + ml + 1, pos + ml + 1 + nl) == e.name
            &&& s.subrange(pos + ml + 2 + nl, pos + ml + 22 + nl) == e.hash
        }),
{
    let ml = mode_bytes(e.mode).len() as int;
    let nl = e.name.len() as int;
    let b = entry_bytes(e);
    lemma_mode_bytes(e.mode);
    assert forall|i: int| 0 <= i < b.len() implies s[pos + i] == #[trigger] b[i] by {
        assert(s.subrange(pos, pos + b.len())[i] == s[pos + i]);
    }
    assert(b[ml] == 32u8);
    assert forall|i: int| pos <= i < pos + ml implies #[trigger] s[i] != 32u8 by {
        assert(b[i - pos] == mode_bytes(e.mode)[i - pos]);
    }
    assert(s.subrange(pos, pos + ml) =~= mode_bytes(e.mode)) by {
        assert forall|i: int| 0 <= i < ml implies s.subrange(pos, pos + ml)[i] == mode_bytes(e.mode)[i] by {
            assert(b[i] == mode_bytes(e.mode)[i]);
        }
    }
    assert(b[ml + 1 + nl] == 0u8);
    assert forall|i: int| pos + ml + 1 <= i < pos + ml + 1 + nl implies #[trigger] s[i] != 0u8 && s[i] != 47u8 by {
        assert(b[i - pos] == e.name[i - pos - ml - 1]);
    }
    assert(s.subrange(pos + ml + 1, pos + ml + 1 + nl) =~= e.name) by {
        assert forall|i: int| 0 <= i < nl implies s.subrange(pos + ml + 1, pos + ml + 1 + nl)[i] == e.name[i] by {
            assert(b[ml + 1 + i] == e.name[i]);
        }
    }
    assert(s.subrange(pos + ml + 2 + nl, pos + ml + 22 + nl) =~= e.hash) by {
        assert forall|i: int| 0 <= i < 20 implies s.subrange(pos + ml + 2 + nl, pos + ml + 22 + nl)[i] == e.hash[i] by {
            assert(b[ml + 2 + nl + i] == e.hash[i]);
        }
    }
}

/// At most one well-formed entry is encoded at a given position.
proof fn lemma_entry_unique(s: Seq<u8>, pos: int, a: EntryView, b: EntryView)
    requires
        entry_at(s, pos, a),
        entry_at(s, pos, b),
        entry_wf(a),
        entry_wf(b),
    ensures
        a == b,
{
    lemma_entry_layout(s, pos, a);
    lemma_entry_layout(s, pos, b);
    lemma_mode_bytes(a.mode);
    lemma_mode_bytes(b.mode);
    let ma = mode_bytes(a.mode).len() as int;
    let mb = mode_bytes(b.mode).len() as int;
    if ma < mb {
        assert(s[pos + ma] != 32u8);
    }
    if mb < ma {
        assert(s[pos + mb] != 32u8);
    }
    assert(a.mode == b.mode);
    let na = a.name.len() as int;
    let nb = b.name.len() as int;
    if na < nb {
        assert(s[pos + ma + 1 + na] != 0u8);
    }
    if nb < na {
        assert(s[pos + ma + 1 + nb] != 0u8);
    }
    assert(a.name =~= b.name);
    assert(a.hash =~= b.hash);
}

/// Parses the entry encoded at `pos`, giving it and the position after it.
pub fn parse_entry(s: &[u8], pos: usize) -> (r: Option<(TreeEntry, usize)>)
    requires
        pos <= s@.len(),
    ensures
        r matches Some((e, next)) ==> entry_wf(e@) && entry_at(s@, pos as int, e@) && next == pos
            + entry_bytes(e@).len(),
        r is None ==> forall|e: EntryView| entry_wf(e) ==> !#[trigger] entry_at(s@, pos as int, e),
{
    let len = s.len();
    let mut sp: usize = pos;
    while sp < len && s[sp] != 32
        invariant
            pos <= sp <= len == s@.len(),
            forall|i: int| pos <= i < sp ==> s@[i] != 32u8,
        decreases len - sp,
    {
        sp = sp + 1;
    }
    proof {
        assert forall|e: EntryView| entry_wf(e) && #[trigger] entry_at(s@, pos as int, e) implies sp
            == pos + mode_bytes(e.mode).len() && sp < len by {
            lemma_entry_layout(s@, pos as int, e);
            let ml = mode_bytes(e.mode).len() as int;
            if sp < pos + ml && sp < len {
                assert(s@[sp as int] != 32u8);
            }
        }
    }
    if sp == len {
        return None;
    }
    let found = Mode::from_digits(s, pos, sp);
    if found.is_none() {
        proof {
            assert forall|e: EntryView| entry_wf(e) implies !#[trigger] entry_at(s@, pos as int, e) by {
                if entry_at(s@, pos as int, e) {
                    lemma_entry_layout(s@, pos as int, e);
                    assert(sp == pos + mode_bytes(e.mode).len());
                    assert(mode_bytes(e.mode) == s@.subrange(pos as int, sp as int));
                }
            }
        }
        return None;
    }
    let mode = found.unwrap();
    let mut nul: usize = sp + 1;
    while nul < len && s[nul] != 0
        invariant
            sp < nul <= len == s@.len(),
            forall|i: int| sp < i < nul ==> s@[i] != 0u8,
        decreases len - nul,
    {
        nul = nul + 1;
    }
    proof {
        assert forall|e: EntryView| entry_wf(e) && #[trigger] entry_at(s@, pos as int, e) implies nul
            == sp + 1 + e.name.len() && nul + 21 <= len by {
            lemma_entry_layout(s@, pos as int, e);
            let nl = e.name.len() as int;
            if nul < sp + 1 + nl && nul < len {
                assert(s@[nul as int] != 0u8);
            }
        }
    }
    if nul == len || nul == sp + 1 || len - nul < 21 {
        return None;
    }
    let mut k: usize = sp + 1;
    while k < nul
        invariant
            sp < k <= nul < len == s@.len(),
            forall|i: int| sp < i < k ==> s@[i] != 47u8,
            forall|e: EntryView| entry_wf(e) && #[trigger] entry_at(s@, pos as int, e) ==> nul == sp
                + 1 + e.name.len() && sp == pos + mode_bytes(e.mode).len(),
        decreases nul - k,
    {
        if s[k] == 47 {
            proof {
                assert forall|e: EntryView| entry_wf(e) implies !#[trigger] entry_at(s@, pos as int, e) by {
                    if entry_at(s@, pos as int, e) {
                        lemma_entry_layout(s@, pos as int, e);
                    }
                }
            }
            return None;
        }
        k = k + 1;
    }
    let name = copy_range(s, sp + 1, nul);
    let hash = copy_range(s, nul + 1, nul + 21);
    let e = TreeEntry { mode, name, hash };
    proof {
        lemma_mode_bytes(mode);
        assert(entry_wf(e@));
        assert(s@.subrange(pos as int, nul + 21) =~= entry_bytes(e@));
    }
    Some((e, nul + 21))
}

/// Decodes a tree payload into its entries; a payload that encodes
/// well-formed entries decodes to exactly those entries.
pub fn decode_tree(payload: &[u8]) -> (r: Result<Vec<TreeEntry>, ObjectError>)
    ensures
        r matches Ok(es) ==> entries_wf(views(es@)) && tree_payload(views(es@)) == payload@,
        forall|es: Seq<EntryView>|
            entries_wf(es) && #[trigger] tree_payload(es) == payload@ ==> (r matches Ok(v) && views(v@)
                == es),
        r is Err ==> r->Err_0 == ObjectError::Format && forall|es: Seq<EntryView>|
            entries_wf(es) ==> #[trigger] tree_payload(es) != payload@,
{
    let mut out: Vec<TreeEntry> = Vec::new();
    let mut pos: usize = 0;
    assert(views(out@) =~= Seq::<EntryView>::empty());
    assert(tree_payload(Seq::<EntryView>::empty()) =~= payload@.subrange(0, 0));
    while pos < payload.len()
        invariant
            pos <= payload@.len(),
            entries_wf(views(out@)),
            tree_payload(views(out@)) == payload@.subrange(0, pos as int),
            forall|es: Seq<EntryView>|
                entries_wf(es) && #[trigger] tree_payload(es) == payload@ ==> out@.len() <= es.len()
                    && es.take(out@.len() as int) == views(out@),
        decreases payload@.len() - pos,
    {
        proof {
            assert forall|es: Seq<EntryView>|
                entries_wf(es) && #[trigger] tree_payload(es) == payload@ implies out@.len() < es.len()
                    && entry_at(payload@, pos as int, es[out@.len() as int]) by {
                let k = out@.len() as int;
                lemma_tree_payload_concat(es.take(k), es.skip(k));
                assert(es.take(k) + es.skip(k) =~= es);
                let rest = tree_payload(es.skip(k));
                assert(rest =~= payload@.subrange(pos as int, payload@.len() as int));
                if k == es.len() {
                    assert(es.skip(k) =~= Seq::<EntryView>::empty());
                }
                let eb = entry_bytes(es[k]);
                assert(es.skip(k)[0] == es[k]);
                assert(payload@.subrange(pos as int, pos + eb.len()) =~= eb) by {
                    assert forall|i: int| 0 <= i < eb.len() implies payload@.subrange(pos as int, pos + eb.len())[i] == eb[i] by {
                        assert(rest[i] == eb[i]);
                    }
                }
            }
        }
        match parse_entry(payload, pos) {
            Some((e, next)) => {
                proof {
                    let k = out@.len() as int;
                    let vo = views(out@);
                    assert(views(out@.push(e)) =~= vo.push(e@));
                    lemma_tree_payload_concat(vo, seq![e@]);
                    assert(seq![e@].drop_first() =~= Seq::<EntryView>::empty());
                    assert(tree_payload(Seq::<EntryView>::empty()) =~= Seq::<u8>::empty());
                    assert(tree_payload(seq![e@]) =~= entry_bytes(e@));
                    assert(vo + seq![e@] =~= vo.push(e@));
                    assert(payload@.subrange(0, next as int) =~= payload@.subrange(0, pos as int) + payload@.subrange(pos as int, next as int));
                    assert forall|es: Seq<EntryView>|
                        entries_wf(es) && #[trigger] tree_payload(es) == payload@ implies k + 1 <= es.len()
                            && es.take(k + 1) == vo.push(e@) by {
                        assert(entry_wf(es[k]));
                        lemma_entry_unique(payload@, pos as int, es[k], e@);
                        assert(es.take(k + 1) =~= es.take(k).push(es[k]));
                    }
                    assert forall|i: int| 0 <= i < k + 1 implies entry_wf(#[trigger] vo.push(e@)[i]) by {
                        if i < k {
                            assert(entry_wf(vo[i]));
                        }
                    }
                }
                out.push(e);
                pos = next;
            },
            None => {
                return Err(ObjectError::Format);
            },
        }
    }
    assert(payload@.subrange(0, pos as int) =~= payload@);
    proof {
        assert forall|es: Seq<EntryView>|
            entries_wf(es) && #[trigger] tree_payload(es) == payload@ implies views(out@) == es by {
            let k = out@.len() as int;
            lemma_tree_payload_concat(es.take(k), es.skip(k));
            assert(es.take(k) + es.skip(k) =~= es);
            if k < es.len() {
                assert(es.skip(k)[0] == es[k]);
                assert(tree_payload(es.skip(k)).len() > 0);
            }
            assert(es.take(k) =~= es);
        }
    }
    Ok(out)
}

} // verus!
