//! The table of network drives: which drive letter maps which share root.
use vstd::prelude::*;
use vstd::utf8::encode_utf8;
use crate::components::{
    components, law_strip_matches_text, strip_prefix_text, ComponentKind, PrefixKind,
};
use crate::drive_path::{DrivePath, NO_DRIVE};
use crate::path_ext::strip_prefix_fix;

verus! {

broadcast use vstd::seq_lib::group_to_multiset_ensures;

/// A drive letter and the share root it maps, as text.
pub type DriveEntry = (char, Seq<char>);

/// The length of a path in bytes (UTF-8).
pub open spec fn path_len(p: Seq<char>) -> usize {
    encode_utf8(p).len() as usize
}

/// The entries of a drive list as text.
pub open spec fn entries_of(v: Seq<(char, String)>) -> Seq<DriveEntry> {
    v.map_values(|e: (char, String)| (e.0, e.1@))
}

/// `a` may come before `b`: a shorter root first, and for roots of one
/// length the lower drive letter first.
pub open spec fn key_le(a: DriveEntry, b: DriveEntry) -> bool {
    path_len(a.1) < path_len(b.1) || (path_len(a.1) == path_len(b.1) && a.0 <= b.0)
}

pub open spec fn is_sorted_by_key(s: Seq<DriveEntry>) -> bool {
    forall|i: int, j: int| 0 <= i < j < s.len() ==> key_le(#[trigger] s[i], #[trigger] s[j])
}

/// `x` inserted into `s` after every entry that may come before it.
pub open spec fn insert_by_key(s: Seq<DriveEntry>, x: DriveEntry) -> Seq<DriveEntry>
    decreases s.len(),
{
    if s.len() == 0 || key_le(s.last(), x) {
        s.push(x)
    } else {
        insert_by_key(s.drop_last(), x).push(s.last())
    }
}

/// The stable sort of `s` by root length, then drive letter.
pub open spec fn sort_by_key(s: Seq<DriveEntry>) -> Seq<DriveEntry>
    decreases s.len(),
{
    if s.len() == 0 {
        seq![]
    } else {
        insert_by_key(sort_by_key(s.drop_last()), s.last())
    }
}

/// The index of the first entry whose root is made of the first components
/// of `path`, if any.
pub open spec fn first_match_from(entries: Seq<DriveEntry>, path: Seq<char>, i: int) -> Option<int>
    decreases entries.len() - i,
{
    if i >= entries.len() {
        None
    } else if strip_prefix_text(path, entries[i].1) is Some {
        Some(i)
    } else {
        first_match_from(entries, path, i + 1)
    }
}

pub open spec fn first_match(entries: Seq<DriveEntry>, path: Seq<char>) -> Option<int> {
    first_match_from(entries, path, 0)
}

/// The drive and the path below its root that the table gives for `path`.
pub open spec fn drive_path_of(entries: Seq<DriveEntry>, path: Seq<char>) -> Option<(char, Seq<char>)> {
    match first_match(entries, path) {
        Some(i) => Some((entries[i].0, strip_prefix_text(path, entries[i].1).unwrap())),
        None => None,
    }
}

proof fn lemma_first_match_from(entries: Seq<DriveEntry>, path: Seq<char>, i: int)
    requires
        0 <= i,
    ensures
        match first_match_from(entries, path, i) {
            Some(m) => {
                &&& i <= m < entries.len()
                &&& strip_prefix_text(path, entries[m].1) is Some
                &&& forall|k: int| i <= k < m ==> strip_prefix_text(path, #[trigger] entries[k].1) is None
            },
            None => forall|k: int| i <= k < entries.len() ==> strip_prefix_text(path, #[trigger] entries[k].1) is None,
        },
    decreases entries.len() - i,
{
    if i < entries.len() && strip_prefix_text(path, entries[i].1) is None {
        lemma_first_match_from(entries, path, i + 1);
    }
}

/// The drive table of the test machine, unsorted.
pub open spec fn mock_entries() -> Seq<DriveEntry> {
    seq![
        ('X', "\\\\?\\UNC\\server\\share"@),
        ('Z', "\\\\?\\UNC\\server2\\share2"@),
        (NO_DRIVE, "\\\\?\\UNC\\server0\\share0"@),
    ]
}

/// The network drives of the machine, sorted so that the shortest root comes
/// first (the lowest drive letter first among roots of one length).
#[derive(Debug)]
pub struct Drives {
    drives: Vec<(char, String)>,
}

impl View for Drives {
    type V = Seq<DriveEntry>;

    closed spec fn view(&self) -> Seq<DriveEntry> {
        entries_of(self.drives@)
    }
}

impl Drives {
    #[verifier::type_invariant]
    spec fn sorted(self) -> bool {
        is_sorted_by_key(entries_of(self.drives@))
    }

    /// A table made of `drives`, sorted.
    pub fn with_drives(drives: Vec<(char, String)>) -> (r: Self)
        ensures
            r@ == sort_by_key(entries_of(drives@)),
            is_sorted_by_key(r@),
    {
        let sorted = Self::sort_drives(drives);
        proof {
            law_sort_drives(entries_of(drives@));
        }
        Drives { drives: sorted }
    }

    /// The entries of `drives` in the order of the table: the shortest root
    /// wins, and among roots of one length the lowest drive letter wins.
    pub fn sort_drives(drives: Vec<(char, String)>) -> (r: Vec<(char, String)>)
        ensures
            entries_of(r@) == sort_by_key(entries_of(drives@)),
    {
        let mut out: Vec<(char, String)> = Vec::new();
        let n = drives.len();
        for i in 0..n
            invariant
                n == drives@.len(),
                entries_of(out@) == sort_by_key(entries_of(drives@.take(i as int))),
        {
            let letter = drives[i].0;
            let root = drives[i].1.clone();
            let len = root.as_str().len();
            let ghost x: DriveEntry = (letter, root@);
            assert(len == path_len(root@));
            let mut j = out.len();
            while j > 0 && !(out[j - 1].1.as_str().len() < len || (out[j - 1].1.as_str().len()
                == len && out[j - 1].0 <= letter))
                invariant
                    j <= out@.len(),
                    len == path_len(x.1),
                    letter == x.0,
                    forall|k: int| j <= k < out@.len() ==> !key_le(#[trigger] entries_of(out@)[k], x),
                decreases j,
            {
                assert(entries_of(out@)[j - 1] == (out@[j - 1].0, out@[j - 1].1@));
                j = j - 1;
            }
            if j > 0 {
                assert(entries_of(out@)[j - 1] == (out@[j - 1].0, out@[j - 1].1@));
            }
            let ghost before = entries_of(out@);
            proof {
                lemma_insert_at(before, x, j as int);
                assert(drives@.take(i + 1).drop_last() =~= drives@.take(i as int));
                assert(entries_of(drives@.take(i + 1)) =~= entries_of(drives@.take(i as int)).push(x));
            }
            out.insert(j, (letter, root));
            assert(entries_of(out@) =~= before.insert(j as int, x));
            proof {
                let t = entries_of(drives@.take(i as int));
                assert(t.push(x).drop_last() =~= t);
                assert(sort_by_key(t.push(x)) == insert_by_key(sort_by_key(t), x));
            }
        }
        assert(drives@.take(n as int) =~= drives@);
        out
    }

    /// The drive whose root is made of the first components of `path`, and the
    /// path below that root; the first such entry of the table wins.
    pub fn _drive_path<'a>(&self, path: &'a str) -> (r: Option<DrivePath<'a>>)
        ensures
            is_sorted_by_key(self@),
            match r {
                Some(d) => drive_path_of(self@, path@) == Some((d.drive_letter, d.path@)),
                None => drive_path_of(self@, path@) is None,
            },
    {
        let n = self.drives.len();
        proof {
            use_type_invariant(self);
            lemma_first_match_from(self@, path@, 0);
        }
        for i in 0..n
            invariant
                n == self.drives@.len(),
                self@ == entries_of(self.drives@),
                is_sorted_by_key(self@),
                forall|k: int| 0 <= k < i ==> strip_prefix_text(path@, #[trigger] self@[k].1) is None,
        {
            assert(self@[i as int] == (self.drives@[i as int].0, self.drives@[i as int].1@));
            let root = self.drives[i].1.as_str();
            assert(root@ == self@[i as int].1);
            match strip_prefix_fix(path, root) {
                Some(suffix) => {
                    proof {
                        lemma_first_match_from(self@, path@, 0);
                        assert(strip_prefix_text(path@, self@[i as int].1) is Some);
                        assert(first_match(self@, path@) is Some);
                        let m = first_match(self@, path@).unwrap();
                        if m < i {
                            assert(strip_prefix_text(path@, self@[m].1) is None);
                        }
                        if m > i {
                            assert(strip_prefix_text(path@, self@[i as int].1) is None);
                        }
                    }
                    return Some(DrivePath::new(self.drives[i].0, suffix));
                },
                None => {},
            }
        }
        None
    }

    /// A copy of the table.
    pub fn copy(&self) -> (r: Self)
        ensures
            r@ == self@,
    {
        proof {
            use_type_invariant(self);
        }
        let mut v: Vec<(char, String)> = Vec::new();
        let n = self.drives.len();
        for i in 0..n
            invariant
                n == self.drives@.len(),
                entries_of(v@) == entries_of(self.drives@).take(i as int),
        {
            let root = self.drives[i].1.clone();
            let ghost old_v = v@;
            v.push((self.drives[i].0, root));
            proof {
                assert(v@ =~= old_v.push((self.drives@[i as int].0, root)));
                assert(entries_of(self.drives@)[i as int] == (self.drives@[i as int].0, self.drives@[i as int].1@));
                assert(entries_of(old_v).push((self.drives@[i as int].0, root@)) =~= entries_of(v@));
            }
            assert(entries_of(v@) =~= entries_of(self.drives@).take(i + 1));
        }
        assert(entries_of(self.drives@).take(n as int) =~= entries_of(self.drives@));
        Drives { drives: v }
    }

    /// The table of the test machine: `\\server\share` on `X:`,
    /// `\\server2\share2` on `Z:`, and `\\server0\share0` connected without
    /// a drive letter.
    pub fn mock() -> (r: Self)
        ensures
            r@ == sort_by_key(mock_entries()),
    {
        let mut v: Vec<(char, String)> = Vec::new();
        v.push(('X', String::from_str("\\\\?\\UNC\\server\\share")));
        v.push(('Z', String::from_str("\\\\?\\UNC\\server2\\share2")));
        v.push((NO_DRIVE, String::from_str("\\\\?\\UNC\\server0\\share0")));
        assert(entries_of(v@) =~= mock_entries());
        Self::with_drives(v)
    }
}

proof fn lemma_insert_at(s: Seq<DriveEntry>, x: DriveEntry, j: int)
    requires
        0 <= j <= s.len(),
        forall|k: int| j <= k < s.len() ==> !key_le(#[trigger] s[k], x),
        j > 0 ==> key_le(s[j - 1], x),
    ensures
        insert_by_key(s, x) == s.insert(j, x),
    decreases s.len(),
{
    if s.len() == 0 {
        assert(s.insert(j, x) =~= seq![x]);
        assert(s.push(x) =~= seq![x]);
    } else if key_le(s.last(), x) {
        assert(j == s.len());
        assert(s.insert(j, x) =~= s.push(x));
    } else {
        lemma_insert_at(s.drop_last(), x, j);
        assert(s.insert(j, x) =~= s.drop_last().insert(j, x).push(s.last()));
    }
}

proof fn lemma_insert_by_key(s: Seq<DriveEntry>, x: DriveEntry)
    requires
        is_sorted_by_key(s),
    ensures
        is_sorted_by_key(insert_by_key(s, x)),
        insert_by_key(s, x).to_multiset() =~= s.to_multiset().insert(x),
    decreases s.len(),
{
    if s.len() == 0 || key_le(s.last(), x) {
        let r = s.push(x);
        assert forall|i: int, j: int| 0 <= i < j < r.len() implies key_le(#[trigger] r[i], #[trigger] r[j]) by {
            if j == s.len() as int && i < s.len() - 1 {
                assert(key_le(s[i], s[s.len() - 1]));
            }
        }
    } else {
        let t = s.drop_last();
        assert(is_sorted_by_key(t));
        lemma_insert_by_key(t, x);
        let u = insert_by_key(t, x);
        let r = u.push(s.last());
        assert(s =~= t.push(s.last()));
        assert forall|i: int, j: int| 0 <= i < j < r.len() implies key_le(#[trigger] r[i], #[trigger] r[j]) by {
            if j == u.len() {
                let y = u[i];
                assert(u.to_multiset().count(y) > 0);
                assert(u.contains(y));
                if y != x {
                    assert(t.to_multiset().count(y) > 0);
                    assert(t.contains(y));
                    let m = choose|m: int| 0 <= m < t.len() && t[m] == y;
                    assert(key_le(s[m], s[s.len() - 1]));
                }
            }
        }
    }
}

/// The table order: the sorted list is ordered by root length and drive
/// letter, and holds exactly the entries it was given.
pub proof fn law_sort_drives(s: Seq<DriveEntry>)
    ensures
        is_sorted_by_key(sort_by_key(s)),
        sort_by_key(s).to_multiset() =~= s.to_multiset(),
    decreases s.len(),
{
    if s.len() > 0 {
        law_sort_drives(s.drop_last());
        lemma_insert_by_key(sort_by_key(s.drop_last()), s.last());
        assert(s =~= s.drop_last().push(s.last()));
    }
}

/// The shortest root wins: in a sorted table, the entry chosen for `path` has
/// a root no longer than that of any other entry whose root `path` starts
/// with, and among roots of one length the lowest drive letter.
pub proof fn law_shortest_root_wins(entries: Seq<DriveEntry>, path: Seq<char>, k: int)
    requires
        is_sorted_by_key(entries),
        0 <= k < entries.len(),
        strip_prefix_text(path, entries[k].1) is Some,
    ensures
        first_match(entries, path) matches Some(m) && key_le(entries[m], entries[k]),
{
    lemma_first_match_from(entries, path, 0);
    let m = first_match(entries, path).unwrap();
    if m != k {
        assert(m < k);
    }
}

/// The drive found for `path` has a root that `path` starts with: when that
/// root is a share (`\\server\share` or `\\?\UNC\server\share`), `path` names
/// the same server and the same share.
pub proof fn law_drive_path_same_share(entries: Seq<DriveEntry>, path: Seq<char>)
    ensures
        drive_path_of(entries, path) is Some ==> {
            let root = entries[first_match(entries, path).unwrap()].1;
            &&& drive_path_of(entries, path).unwrap().0 == entries[first_match(
                entries,
                path,
            ).unwrap()].0
            &&& strip_prefix_text(path, root) is Some
            &&& drive_path_of(entries, path).unwrap().1 == strip_prefix_text(path, root).unwrap()
            &&& components(root).len() > 0 ==> match (
                components(root)[0].kind,
                components(path)[0].kind,
            ) {
                (ComponentKind::Prefix(x), ComponentKind::Prefix(y)) => (x.kind == PrefixKind::UNC
                    || x.kind == PrefixKind::VerbatimUNC) ==> {
                    &&& y.kind == x.kind
                    &&& root.subrange(x.first.0 as int, x.first.1 as int) == path.subrange(
                        y.first.0 as int,
                        y.first.1 as int,
                    )
                    &&& root.subrange(x.second.0 as int, x.second.1 as int) == path.subrange(
                        y.second.0 as int,
                        y.second.1 as int,
                    )
                },
                (ComponentKind::Prefix(x), _) => false,
                _ => true,
            }
        },
{
    lemma_first_match_from(entries, path, 0);
    if drive_path_of(entries, path) is Some {
        let root = entries[first_match(entries, path).unwrap()].1;
        law_strip_matches_text(path, root);
        if components(root).len() > 0 {
            let _ = components(root)[0];
        }
    }
}

/// Whenever some root of the table is made of the first components of
/// `path`, a drive is found for `path`.
pub proof fn law_drive_path_found(entries: Seq<DriveEntry>, path: Seq<char>, k: int)
    requires
        0 <= k < entries.len(),
        strip_prefix_text(path, entries[k].1) is Some,
    ensures
        drive_path_of(entries, path) is Some,
{
    lemma_first_match_from(entries, path, 0);
}

/// The drive letter of bit `i` of a logical-drive mask (`A` for bit 0).
pub open spec fn drive_letter_of_bit(i: int) -> char {
    ((65 + i) as u8) as char
}

/// The drive letters whose bits are set in `m`, from bit `i` (letter `i`)
/// on, up to `Z`.
pub open spec fn mask_letters(m: u32, i: int) -> Seq<char>
    decreases 26 - i,
{
    if i >= 26 || m == 0 {
        seq![]
    } else {
        let rest = mask_letters(m / 2, i + 1);
        if m % 2 == 1 {
            seq![drive_letter_of_bit(i)] + rest
        } else {
            rest
        }
    }
}

/// The drive letters present in a logical-drive bit mask, in order: bit 0
/// is `A`, bit 25 is `Z`.
pub fn drive_letters(mask: u32) -> (r: Vec<char>)
    ensures
        r@ == mask_letters(mask, 0),
{
    let mut out: Vec<char> = Vec::new();
    let mut m = mask;
    let mut i: u8 = 0;
    while i < 26 && m != 0
        invariant
            i <= 26,
            out@ + mask_letters(m, i as int) == mask_letters(mask, 0),
        decreases 26 - i,
    {
        let ghost before = out@;
        let ghost rest = mask_letters(m / 2, i + 1);
        if m % 2 == 1 {
            out.push((65u8 + i) as char);
            assert(before + (seq![drive_letter_of_bit(i as int)] + rest) =~= out@ + rest);
        }
        m = m / 2;
        i = i + 1;
    }
    assert(out@ + mask_letters(m, i as int) =~= out@);
    out
}

/// Two entries have the same sort key: root length and drive letter.
pub open spec fn same_key(a: DriveEntry, b: DriveEntry) -> bool {
    path_len(a.1) == path_len(b.1) && a.0 == b.0
}

/// The entries of `s` that have the key of `x`, in their order in `s`.
pub open spec fn with_key(s: Seq<DriveEntry>, x: DriveEntry) -> Seq<DriveEntry>
    decreases s.len(),
{
    if s.len() == 0 {
        seq![]
    } else if same_key(s.last(), x) {
        with_key(s.drop_last(), x).push(s.last())
    } else {
        with_key(s.drop_last(), x)
    }
}

proof fn lemma_with_key_insert(t: Seq<DriveEntry>, y: DriveEntry, x: DriveEntry)
    ensures
        with_key(insert_by_key(t, y), x) == if same_key(y, x) {
            with_key(t, x).push(y)
        } else {
            with_key(t, x)
        },
    decreases t.len(),
{
    if t.len() == 0 || key_le(t.last(), y) {
        assert(t.push(y).drop_last() =~= t);
    } else {
        lemma_with_key_insert(t.drop_last(), y, x);
        let u = insert_by_key(t.drop_last(), y);
        assert(u.push(t.last()).drop_last() =~= u);
    }
}

/// The sort is stable: entries with equal keys keep their order from the
/// input.
pub proof fn law_sort_drives_stable(s: Seq<DriveEntry>, x: DriveEntry)
    ensures
        with_key(sort_by_key(s), x) == with_key(s, x),
    decreases s.len(),
{
    if s.len() > 0 {
        law_sort_drives_stable(s.drop_last(), x);
        lemma_with_key_insert(sort_by_key(s.drop_last()), s.last(), x);
    }
}

} // verus!
