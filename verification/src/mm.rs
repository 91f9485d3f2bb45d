//! Address spaces: map areas, their pages, and the bytes that live in them.

use vstd::prelude::*;
use crate::config::{PAGE_SIZE, TRAMPOLINE, TRAP_CONTEXT, USER_STACK_SIZE};

verus! {

/// Permission bit: the page may be read.
pub const PERM_R: u8 = 2;

/// Permission bit: the page may be written.
pub const PERM_W: u8 = 4;

/// Permission bit: code in the page may be run.
pub const PERM_X: u8 = 8;

/// Permission bit: user mode may touch the page.
pub const PERM_U: u8 = 16;

/// One past the largest virtual page number.
pub open spec fn vpn_limit() -> int {
    usize::MAX as int / PAGE_SIZE as int + 1
}

/// The page that holds address `va`.
pub open spec fn page_of(va: int) -> int {
    va / PAGE_SIZE as int
}

/// The first page at or above address `va`.
pub open spec fn page_above(va: int) -> int {
    (va + PAGE_SIZE as int - 1) / PAGE_SIZE as int
}

/// The page that holds address `va`.
pub fn floor_page(va: usize) -> (vpn: usize)
    ensures
        vpn == page_of(va as int),
        vpn < vpn_limit(),
{
    va / PAGE_SIZE
}

/// The first page at or above address `va`.
pub fn ceil_page(va: usize) -> (vpn: usize)
    ensures
        vpn == page_above(va as int),
        vpn <= vpn_limit(),
{
    if va == 0 {
        0
    } else {
        (va - 1) / PAGE_SIZE + 1
    }
}

/// How the pages of an area come by their frames.
#[derive(Copy, Clone, Debug, PartialEq, Eq, Structural)]
pub enum MapType {
    /// Each page maps the frame of the same number.
    Identical,
    /// Each page is backed by a frame of its own, which the area owns.
    Framed,
}

/// The mathematical content of a map area: a half-open range of pages, how
/// they are mapped and with which permissions, and the bytes of its frames.
pub struct AreaView {
    pub start: int,
    pub end: int,
    pub map_type: MapType,
    pub perm: u8,
    pub data: Seq<u8>,
}

impl AreaView {
    /// The range is not empty and lies in the address space; a framed area
    /// holds one page of bytes for each of its pages, another none.
    pub open spec fn wf(self) -> bool {
        &&& 0 <= self.start < self.end <= vpn_limit()
        &&& self.data.len() == (if self.map_type == MapType::Framed {
            (self.end - self.start) * PAGE_SIZE as int
        } else {
            0
        })
    }

    /// Page `vpn` lies in the area.
    pub open spec fn covers(self, vpn: int) -> bool {
        self.start <= vpn < self.end
    }

    /// The bytes of page `vpn` of a framed area.
    pub open spec fn page(self, vpn: int) -> Seq<u8> {
        self.data.subrange(
            (vpn - self.start) * PAGE_SIZE as int,
            (vpn - self.start + 1) * PAGE_SIZE as int,
        )
    }

    /// The area shares a page with the range from `s` up to `e`.
    pub open spec fn meets(self, s: int, e: int) -> bool {
        self.start < e && s < self.end
    }

    /// The two areas share no page.
    pub open spec fn disjoint(self, other: AreaView) -> bool {
        self.end <= other.start || other.end <= self.start
    }

    /// The part of the area below page `s`.
    pub open spec fn below(self, s: int) -> AreaView {
        AreaView {
            end: s,
            data: if self.map_type == MapType::Framed {
                self.data.subrange(0, (s - self.start) * PAGE_SIZE as int)
            } else {
                self.data
            },
            ..self
        }
    }

    /// The part of the area from page `e` up.
    pub open spec fn above(self, e: int) -> AreaView {
        AreaView {
            start: e,
            data: if self.map_type == MapType::Framed {
                self.data.subrange((e - self.start) * PAGE_SIZE as int, self.data.len() as int)
            } else {
                self.data
            },
            ..self
        }
    }

    /// What is left of the area when the pages from `s` up to `e` are taken out.
    pub open spec fn cut(self, s: int, e: int) -> Seq<AreaView> {
        if !self.meets(s, e) {
            seq![self]
        } else {
            (if self.start < s {
                seq![self.below(s)]
            } else {
                Seq::empty()
            }) + (if e < self.end {
                seq![self.above(e)]
            } else {
                Seq::empty()
            })
        }
    }
}

/// What is left of `areas`, in order, when the pages from `s` up to `e` are taken out.
pub open spec fn carve_areas(areas: Seq<AreaView>, s: int, e: int) -> Seq<AreaView>
    decreases areas.len(),
{
    if areas.len() == 0 {
        Seq::empty()
    } else {
        carve_areas(areas.drop_last(), s, e) + areas.last().cut(s, e)
    }
}

/// A fresh framed area: its pages hold zeros.
pub open spec fn fresh_area(s: int, e: int, perm: u8) -> AreaView {
    AreaView {
        start: s,
        end: e,
        map_type: MapType::Framed,
        perm,
        data: Seq::new(((e - s) * PAGE_SIZE as int) as nat, |i: int| 0u8),
    }
}

/// The mathematical content of an address space.
pub struct MemorySetView {
    /// The handle by which translation helpers know the address space.
    pub token: usize,
    /// The map areas, in the order in which they were added.
    pub areas: Seq<AreaView>,
}

impl MemorySetView {
    /// Every area is well formed, and no two areas share a page.
    pub open spec fn wf(self) -> bool {
        &&& forall|i: int| 0 <= i < self.areas.len() ==> (#[trigger] self.areas[i]).wf()
        &&& forall|i: int, j: int|
            0 <= i < self.areas.len() && 0 <= j < self.areas.len() && i != j ==> (
            #[trigger] self.areas[i]).disjoint(#[trigger] self.areas[j])
    }

    /// Page `vpn` lies in some area.
    pub open spec fn is_mapped(self, vpn: int) -> bool {
        exists|i: int| 0 <= i < self.areas.len() && (#[trigger] self.areas[i]).covers(vpn)
    }

    /// The index of the area that holds page `vpn`.
    pub open spec fn area_of(self, vpn: int) -> int {
        choose|i: int| 0 <= i < self.areas.len() && (#[trigger] self.areas[i]).covers(vpn)
    }

    /// The permissions of the mapped page `vpn`.
    pub open spec fn perm_at(self, vpn: int) -> u8 {
        self.areas[self.area_of(vpn)].perm
    }

    /// Page `vpn` is backed by a frame of its own.
    pub open spec fn is_framed(self, vpn: int) -> bool {
        self.is_mapped(vpn) && self.areas[self.area_of(vpn)].map_type == MapType::Framed
    }

    /// The bytes of the framed page `vpn`.
    pub open spec fn page_at(self, vpn: int) -> Seq<u8> {
        self.areas[self.area_of(vpn)].page(vpn)
    }

    /// The byte at address `va`, which lies in a framed page.
    pub open spec fn byte_at(self, va: int) -> u8 {
        self.page_at(page_of(va))[va % PAGE_SIZE as int]
    }

    /// Some area shares a page with the range from `s` up to `e`.
    pub open spec fn overlaps(self, s: int, e: int) -> bool {
        exists|i: int| 0 <= i < self.areas.len() && (#[trigger] self.areas[i]).meets(s, e)
    }

    /// Every page from `s` up to `e` is mapped.
    pub open spec fn all_mapped(self, s: int, e: int) -> bool {
        forall|vpn: int| s <= vpn < e ==> self.is_mapped(vpn)
    }

    /// The address space with one more area at the end.
    pub open spec fn push(self, area: AreaView) -> MemorySetView {
        MemorySetView { areas: self.areas.push(area), ..self }
    }

    /// The address space without the pages from `s` up to `e`.
    pub open spec fn carve(self, s: int, e: int) -> MemorySetView {
        MemorySetView { areas: carve_areas(self.areas, s, e), ..self }
    }

    /// In a well-formed address space a page lies in one area only.
    pub proof fn lemma_area_unique(self, vpn: int, i: int)
        requires
            self.wf(),
            0 <= i < self.areas.len(),
            self.areas[i].covers(vpn),
        ensures
            self.is_mapped(vpn),
            self.area_of(vpn) == i,
    {
        let j = self.area_of(vpn);
        if j != i {
            assert(self.areas[i].disjoint(self.areas[j]));
        }
    }
}

impl MemorySetView {
    /// Every page from `s` up to `e` is backed by a frame of its own.
    pub open spec fn all_framed(self, s: int, e: int) -> bool {
        forall|vpn: int| s <= vpn < e ==> self.is_framed(vpn)
    }

    /// The `len` bytes from address `ptr` on lie in framed pages of the
    /// address space.
    pub open spec fn accessible(self, ptr: int, len: int) -> bool {
        &&& ptr + len <= usize::MAX + 1
        &&& forall|k: int| 0 <= k < len ==> self.is_framed(#[trigger] page_of(ptr + k))
    }

    /// The `len` bytes from address `ptr` on.
    pub open spec fn bytes_at(self, ptr: int, len: int) -> Seq<u8> {
        Seq::new(len as nat, |k: int| self.byte_at(ptr + k))
    }

    /// The address space with byte `b` at address `va`, which lies in a framed page.
    pub open spec fn with_byte(self, va: int, b: u8) -> MemorySetView {
        let i = self.area_of(page_of(va));
        let a = self.areas[i];
        MemorySetView {
            areas: self.areas.update(
                i,
                AreaView { data: a.data.update(va - a.start * PAGE_SIZE as int, b), ..a },
            ),
            ..self
        }
    }

    /// The address space with `data` stored from address `ptr` on.
    pub open spec fn with_bytes(self, ptr: int, data: Seq<u8>) -> MemorySetView
        decreases data.len(),
    {
        if data.len() == 0 {
            self
        } else {
            self.with_bytes(ptr, data.drop_last()).with_byte(ptr + data.len() - 1, data.last())
        }
    }

    /// `self` and `other` have the same areas, up to the bytes in them.
    pub open spec fn same_layout(self, other: MemorySetView) -> bool {
        &&& self.token == other.token
        &&& self.areas.len() == other.areas.len()
        &&& forall|i: int|
            0 <= i < self.areas.len() ==> {
                &&& (#[trigger] self.areas[i]).start == other.areas[i].start
                &&& self.areas[i].end == other.areas[i].end
                &&& self.areas[i].map_type == other.areas[i].map_type
                &&& self.areas[i].perm == other.areas[i].perm
                &&& self.areas[i].data.len() == other.areas[i].data.len()
            }
    }

    /// Address spaces of the same layout map the same pages in the same way.
    pub proof fn lemma_same_layout(self, other: MemorySetView, vpn: int)
        requires
            self.wf(),
            self.same_layout(other),
        ensures
            other.wf(),
            other.is_mapped(vpn) == self.is_mapped(vpn),
            self.is_mapped(vpn) ==> other.area_of(vpn) == self.area_of(vpn) && other.perm_at(vpn)
                == self.perm_at(vpn),
            other.is_framed(vpn) == self.is_framed(vpn),
    {
        assert forall|i: int| 0 <= i < other.areas.len() implies (#[trigger] other.areas[i]).wf() by {
            assert(self.areas[i].wf());
        }
        assert forall|i: int, j: int|
            0 <= i < other.areas.len() && 0 <= j < other.areas.len() && i != j implies (
        #[trigger] other.areas[i]).disjoint(#[trigger] other.areas[j]) by {
            assert(self.areas[i].disjoint(self.areas[j]));
        }
        if self.is_mapped(vpn) {
            let i = self.area_of(vpn);
            assert(other.areas[i].covers(vpn));
            other.lemma_area_unique(vpn, i);
        }
        if other.is_mapped(vpn) {
            let i = other.area_of(vpn);
            assert(self.areas[i].covers(vpn));
            self.lemma_area_unique(vpn, i);
        }
    }

    /// The byte at `va` is the one at its offset in the area that holds it.
    pub proof fn lemma_byte_at(self, va: int)
        requires
            self.wf(),
            va >= 0,
            self.is_framed(page_of(va)),
        ensures
            ({
                let a = self.areas[self.area_of(page_of(va))];
                &&& 0 <= va - a.start * (PAGE_SIZE as int)
                &&& va - a.start * (PAGE_SIZE as int) < a.data.len()
                &&& self.byte_at(va) == a.data[va - a.start * PAGE_SIZE as int]
            }),
    {
        let vpn = page_of(va);
        let a = self.areas[self.area_of(vpn)];
        assert(a.wf());
        assert(a.covers(vpn));
        assert(va == vpn * 4096 + va % 4096);
        assert((vpn - a.start + 1) * 4096 <= (a.end - a.start) * 4096);
        assert((vpn - a.start) * 4096 + va % 4096 == va - a.start * 4096);
    }

    /// Storing one byte changes that byte and nothing else.
    pub proof fn lemma_with_byte(self, va: int, b: u8, other: int)
        requires
            self.wf(),
            va >= 0,
            self.is_framed(page_of(va)),
            other >= 0,
        ensures
            self.same_layout(self.with_byte(va, b)),
            self.with_byte(va, b).wf(),
            self.with_byte(va, b).byte_at(va) == b,
            other != va && self.is_framed(page_of(other)) ==> self.with_byte(va, b).byte_at(other)
                == self.byte_at(other),
    {
        let w = self.with_byte(va, b);
        let vpn = page_of(va);
        self.lemma_byte_at(va);
        assert(self.same_layout(w));
        self.lemma_same_layout(w, vpn);
        w.lemma_byte_at(va);
        if other != va && self.is_framed(page_of(other)) {
            self.lemma_same_layout(w, page_of(other));
            self.lemma_byte_at(other);
            w.lemma_byte_at(other);
        }
    }

    /// Storing bytes keeps the layout; afterwards each address of the stored
    /// range holds its byte of `data`, and every other byte is as before.
    pub proof fn lemma_with_bytes(self, ptr: int, data: Seq<u8>, other: int)
        requires
            self.wf(),
            ptr >= 0,
            self.accessible(ptr, data.len() as int),
            other >= 0,
        ensures
            self.same_layout(self.with_bytes(ptr, data)),
            self.with_bytes(ptr, data).wf(),
            self.is_framed(page_of(other)) ==> self.with_bytes(ptr, data).byte_at(other) == (if ptr
                <= other < ptr + data.len() {
                data[other - ptr]
            } else {
                self.byte_at(other)
            }),
        decreases data.len(),
    {
        if data.len() > 0 {
            let front = data.drop_last();
            let mid = self.with_bytes(ptr, front);
            let va = ptr + data.len() - 1;
            assert(self.accessible(ptr, front.len() as int));
            assert(self.is_framed(page_of(ptr + (data.len() - 1))));
            self.lemma_with_bytes(ptr, front, other);
            self.lemma_with_bytes(ptr, front, va);
            self.lemma_same_layout(mid, page_of(va));
            self.lemma_same_layout(mid, page_of(other));
            mid.lemma_with_byte(va, data.last(), other);
            let w = mid.with_byte(va, data.last());
            assert(self.same_layout(w));
        } else {
            assert(self.same_layout(self));
        }
    }
}

/// Storing the byte that is there already changes nothing.
pub proof fn lemma_with_byte_same(v: MemorySetView, va: int, b: u8)
    requires
        v.wf(),
        va >= 0,
        v.is_framed(page_of(va)),
        v.byte_at(va) == b,
    ensures
        v.with_byte(va, b) == v,
{
    v.lemma_byte_at(va);
    let i = v.area_of(page_of(va));
    let a = v.areas[i];
    assert(a.data.update(va - a.start * PAGE_SIZE as int, b) =~= a.data);
    assert(v.with_byte(va, b).areas =~= v.areas);
}

/// Storing the bytes that are there already changes nothing.
pub proof fn lemma_with_bytes_same(v: MemorySetView, ptr: int, data: Seq<u8>)
    requires
        v.wf(),
        ptr >= 0,
        v.accessible(ptr, data.len() as int),
        v.bytes_at(ptr, data.len() as int) == data,
    ensures
        v.with_bytes(ptr, data) == v,
    decreases data.len(),
{
    if data.len() > 0 {
        let front = data.drop_last();
        assert(v.bytes_at(ptr, front.len() as int) =~= front) by {
            assert forall|k: int| 0 <= k < front.len() implies v.bytes_at(
                ptr,
                front.len() as int,
            )[k] == front[k] by {
                assert(v.bytes_at(ptr, data.len() as int)[k] == data[k]);
            }
        }
        lemma_with_bytes_same(v, ptr, front);
        let va = ptr + data.len() - 1;
        assert(v.is_framed(page_of(ptr + (data.len() - 1))));
        assert(v.bytes_at(ptr, data.len() as int)[data.len() - 1] == v.byte_at(va));
        lemma_with_byte_same(v, va, data.last());
    }
}

/// The bytes from `ptr` on lie in framed pages exactly if every page from
/// that of the first byte to that of the last is framed.
pub proof fn lemma_accessible_by_pages(v: MemorySetView, ptr: int, len: int)
    requires
        ptr >= 0,
        len > 0,
        ptr + len <= usize::MAX + 1,
    ensures
        v.accessible(ptr, len) == v.all_framed(page_of(ptr), page_of(ptr + len - 1) + 1),
{
    let first = page_of(ptr);
    let last = page_of(ptr + len - 1);
    if v.accessible(ptr, len) {
        assert forall|vpn: int| first <= vpn < last + 1 implies v.is_framed(vpn) by {
            let k = if vpn == first {
                0
            } else {
                vpn * 4096 - ptr
            };
            assert(0 <= k < len);
            assert(page_of(ptr + k) == vpn);
        }
    }
    if v.all_framed(first, last + 1) {
        assert forall|k: int| 0 <= k < len implies v.is_framed(#[trigger] page_of(ptr + k)) by {
            assert(first <= page_of(ptr + k) <= last);
        }
    }
}

/// An area that does not reach into the range stays whole.
proof fn lemma_carve_untouched(areas: Seq<AreaView>, s: int, e: int)
    requires
        forall|i: int| 0 <= i < areas.len() ==> !(#[trigger] areas[i]).meets(s, e),
    ensures
        carve_areas(areas, s, e) == areas,
    decreases areas.len(),
{
    if areas.len() > 0 {
        lemma_carve_untouched(areas.drop_last(), s, e);
        assert(areas.last().cut(s, e) == seq![areas.last()]);
        assert(areas.drop_last() + seq![areas.last()] =~= areas);
    }
}

/// `piece` is part of `whole`.
pub open spec fn within(piece: AreaView, whole: AreaView) -> bool {
    whole.start <= piece.start && piece.end <= whole.end
}

/// What carving leaves: every piece is well formed, keeps clear of the range,
/// and is part of one of the areas that were there; pieces of one area come
/// before pieces of a later one.
proof fn lemma_carve_pieces(areas: Seq<AreaView>, s: int, e: int)
    requires
        s < e,
        forall|i: int| 0 <= i < areas.len() ==> (#[trigger] areas[i]).wf(),
        forall|i: int, j: int|
            0 <= i < areas.len() && 0 <= j < areas.len() && i != j ==> (#[trigger] areas[i]).disjoint(
                #[trigger] areas[j],
            ),
    ensures
        forall|k: int|
            0 <= k < carve_areas(areas, s, e).len() ==> {
                let p = #[trigger] carve_areas(areas, s, e)[k];
                &&& p.wf()
                &&& !p.meets(s, e)
                &&& exists|i: int|
                    0 <= i < areas.len() && within(p, #[trigger] areas[i]) && p.perm
                        == areas[i].perm && p.map_type == areas[i].map_type
            },
        forall|k: int, l: int|
            0 <= k < carve_areas(areas, s, e).len() && 0 <= l < carve_areas(areas, s, e).len() && k
                != l ==> (#[trigger] carve_areas(areas, s, e)[k]).disjoint(
                #[trigger] carve_areas(areas, s, e)[l],
            ),
    decreases areas.len(),
{
    let out = carve_areas(areas, s, e);
    if areas.len() > 0 {
        let front = areas.drop_last();
        let last = areas.last();
        let head = carve_areas(front, s, e);
        let tail = last.cut(s, e);
        lemma_carve_pieces(front, s, e);
        assert(last.wf());
        assert forall|k: int| 0 <= k < tail.len() implies {
            let p = #[trigger] tail[k];
            &&& p.wf()
            &&& !p.meets(s, e)
            &&& within(p, last)
            &&& p.perm == last.perm
            &&& p.map_type == last.map_type
        } by {
            lemma_cut_piece(last, s, e, k);
        }
        assert forall|k: int| 0 <= k < out.len() implies {
            let p = #[trigger] out[k];
            &&& p.wf()
            &&& !p.meets(s, e)
            &&& exists|i: int|
                0 <= i < areas.len() && within(p, #[trigger] areas[i]) && p.perm == areas[i].perm
                    && p.map_type == areas[i].map_type
        } by {
            if k < head.len() {
                assert(out[k] == head[k]);
                let i = choose|i: int|
                    0 <= i < front.len() && within(head[k], #[trigger] front[i]) && head[k].perm
                        == front[i].perm && head[k].map_type == front[i].map_type;
                assert(front[i] == areas[i]);
            } else {
                assert(out[k] == tail[k - head.len()]);
                assert(within(out[k], areas[areas.len() - 1]));
            }
        }
        assert forall|k: int, l: int|
            0 <= k < out.len() && 0 <= l < out.len() && k != l implies (#[trigger] out[k]).disjoint(
            #[trigger] out[l],
        ) by {
            if k < head.len() && l < head.len() {
                assert(out[k] == head[k] && out[l] == head[l]);
            } else if k >= head.len() && l >= head.len() {
                assert(out[k] == tail[k - head.len()]);
                assert(out[l] == tail[l - head.len()]);
                assert(!out[k].meets(s, e) && !out[l].meets(s, e));
                assert(tail.len() == 2);
            } else {
                let (a, b) = if k < head.len() {
                    (k, l)
                } else {
                    (l, k)
                };
                assert(out[a] == head[a]);
                assert(out[b] == tail[b - head.len()]);
                let i = choose|i: int|
                    0 <= i < front.len() && within(head[a], #[trigger] front[i]) && head[a].perm
                        == front[i].perm && head[a].map_type == front[i].map_type;
                assert(front[i] == areas[i]);
                assert(areas[i].disjoint(areas[areas.len() - 1]));
                assert(within(out[b], last));
            }
        }
    }
}

/// Each piece that a cut leaves is a well-formed part of the area, clear of
/// the range that was taken out.
proof fn lemma_cut_piece(a: AreaView, s: int, e: int, k: int)
    requires
        a.wf(),
        s < e,
        0 <= k < a.cut(s, e).len(),
    ensures
        a.cut(s, e)[k].wf(),
        !a.cut(s, e)[k].meets(s, e),
        within(a.cut(s, e)[k], a),
        a.cut(s, e)[k].perm == a.perm,
        a.cut(s, e)[k].map_type == a.map_type,
{
    if a.meets(s, e) {
        if a.start < s {
            assert(a.below(s).wf()) by {
                assert((s - a.start) * 4096 <= (a.end - a.start) * 4096);
            }
        }
        if e < a.end {
            assert(a.above(e).wf()) by {
                assert((e - a.start) * 4096 <= (a.end - a.start) * 4096);
                assert((a.end - a.start) * 4096 - (e - a.start) * 4096 == (a.end - e) * 4096);
            }
        }
    }
}

/// After carving, a page is mapped exactly if it was mapped and lies outside
/// the range; such a page keeps its permissions, its kind and its bytes.
pub proof fn lemma_carve_mapping(v: MemorySetView, s: int, e: int, vpn: int)
    requires
        v.wf(),
        s < e,
    ensures
        v.carve(s, e).wf(),
        v.carve(s, e).is_mapped(vpn) == (v.is_mapped(vpn) && !(s <= vpn < e)),
        v.carve(s, e).is_mapped(vpn) ==> v.carve(s, e).perm_at(vpn) == v.perm_at(vpn)
            && v.carve(s, e).is_framed(vpn) == v.is_framed(vpn),
        v.carve(s, e).is_framed(vpn) ==> v.carve(s, e).page_at(vpn) == v.page_at(vpn),
{
    let w = v.carve(s, e);
    lemma_carve_pieces(v.areas, s, e);
    if w.is_mapped(vpn) {
        let k = w.area_of(vpn);
        let p = w.areas[k];
        assert(!p.meets(s, e));
        let i = choose|i: int|
            0 <= i < v.areas.len() && within(p, #[trigger] v.areas[i]) && p.perm == v.areas[i].perm
                && p.map_type == v.areas[i].map_type;
        v.lemma_area_unique(vpn, i);
    }
    if v.is_mapped(vpn) && !(s <= vpn < e) {
        let i = v.area_of(vpn);
        lemma_carve_keeps(v.areas, s, e, i, vpn);
        let k = choose|k: int|
            0 <= k < w.areas.len() && (#[trigger] w.areas[k]).covers(vpn) && w.areas[k].perm
                == v.areas[i].perm && w.areas[k].map_type == v.areas[i].map_type && (
            w.areas[k].map_type == MapType::Framed ==> w.areas[k].page(vpn) == v.areas[i].page(
                vpn,
            ));
        w.lemma_area_unique(vpn, k);
    }
}

/// A page outside the range that area `i` holds is, after carving, held by a
/// piece with the same permissions, kind and bytes.
proof fn lemma_carve_keeps(areas: Seq<AreaView>, s: int, e: int, i: int, vpn: int)
    requires
        s < e,
        0 <= i < areas.len(),
        areas[i].wf(),
        areas[i].covers(vpn),
        !(s <= vpn < e),
    ensures
        exists|k: int|
            0 <= k < carve_areas(areas, s, e).len() && (#[trigger] carve_areas(
                areas,
                s,
                e,
            )[k]).covers(vpn) && carve_areas(areas, s, e)[k].perm == areas[i].perm && carve_areas(
                areas,
                s,
                e,
            )[k].map_type == areas[i].map_type && (carve_areas(areas, s, e)[k].map_type
                == MapType::Framed ==> carve_areas(areas, s, e)[k].page(vpn) == areas[i].page(
                vpn,
            )),
    decreases areas.len(),
{
    let out = carve_areas(areas, s, e);
    let front = areas.drop_last();
    let head = carve_areas(front, s, e);
    let last = areas.last();
    let tail = last.cut(s, e);
    if i < areas.len() - 1 {
        lemma_carve_keeps(front, s, e, i, vpn);
        let k = choose|k: int|
            0 <= k < head.len() && (#[trigger] head[k]).covers(vpn) && head[k].perm
                == front[i].perm && head[k].map_type == front[i].map_type && (head[k].map_type
                == MapType::Framed ==> head[k].page(vpn) == front[i].page(vpn));
        assert(out[k] == head[k]);
    } else {
        let a = areas[i];
        if !a.meets(s, e) {
            assert(tail[0] == a);
            assert(out[head.len() as int] == tail[0]);
        } else if vpn < s {
            let p = a.below(s);
            assert(tail[0] == p);
            assert(out[head.len() as int] == tail[0]);
            if a.map_type == MapType::Framed {
                assert((vpn - a.start + 1) * 4096 <= (s - a.start) * 4096);
                assert((s - a.start) * 4096 <= (a.end - a.start) * 4096);
                assert(p.page(vpn) =~= a.page(vpn));
            }
        } else {
            let p = a.above(e);
            let at = if a.start < s {
                1int
            } else {
                0int
            };
            assert(tail[at] == p);
            assert(out[head.len() + at] == tail[at]);
            if a.map_type == MapType::Framed {
                assert((vpn - e) * 4096 + (e - a.start) * 4096 == (vpn - a.start) * 4096);
                assert((vpn - a.start + 1) * 4096 <= (a.end - a.start) * 4096);
                assert((e - a.start) * 4096 <= (a.end - a.start) * 4096);
                assert(p.page(vpn) =~= a.page(vpn));
            }
        }
    }
}

/// Mapping a free range and unmapping it again gives back the address space
/// as it was, area for area; unmapping it once more finds nothing to unmap.
pub proof fn lemma_map_unmap_restores(v: MemorySetView, s: int, e: int, perm: u8)
    requires
        v.wf(),
        0 <= s < e <= vpn_limit(),
        !v.overlaps(s, e),
    ensures
        v.push(fresh_area(s, e, perm)).wf(),
        v.push(fresh_area(s, e, perm)).all_mapped(s, e),
        v.push(fresh_area(s, e, perm)).carve(s, e) == v,
        !v.all_mapped(s, e),
{
    let area = fresh_area(s, e, perm);
    let w = v.push(area);
    assert(area.wf());
    assert forall|i: int, j: int|
        0 <= i < w.areas.len() && 0 <= j < w.areas.len() && i != j implies (#[trigger] w.areas[i]).disjoint(
        #[trigger] w.areas[j],
    ) by {
        if i < v.areas.len() && j < v.areas.len() {
            assert(v.areas[i].disjoint(v.areas[j]));
        } else if i < v.areas.len() {
            assert(!v.areas[i].meets(s, e));
        } else {
            assert(!v.areas[j].meets(s, e));
        }
    }
    assert forall|vpn: int| s <= vpn < e implies w.is_mapped(vpn) by {
        assert(w.areas[v.areas.len() as int].covers(vpn));
    }
    assert(w.areas.drop_last() =~= v.areas);
    assert forall|i: int| 0 <= i < v.areas.len() implies !(#[trigger] v.areas[i]).meets(s, e) by {}
    lemma_carve_untouched(v.areas, s, e);
    assert(area.cut(s, e) =~= Seq::<AreaView>::empty());
    assert(carve_areas(w.areas, s, e) =~= v.areas);
    if v.all_mapped(s, e) {
        assert(v.is_mapped(s));
        let i = v.area_of(s);
        assert(v.areas[i].meets(s, e));
    }
}

/// A range of virtual pages mapped alike.
pub struct MapArea {
    start_vpn: usize,
    end_vpn: usize,
    map_type: MapType,
    map_perm: u8,
    data: Vec<u8>,
}

impl View for MapArea {
    type V = AreaView;

    closed spec fn view(&self) -> AreaView {
        AreaView {
            start: self.start_vpn as int,
            end: self.end_vpn as int,
            map_type: self.map_type,
            perm: self.map_perm,
            data: self.data@,
        }
    }
}

impl MapArea {
    /// A framed area over the pages from `s` up to `e`, filled with zeros.
    pub fn new_framed(s: usize, e: usize, perm: u8) -> (area: Self)
        requires
            s < e <= vpn_limit(),
            (e - s) * PAGE_SIZE <= isize::MAX,
        ensures
            area@.wf(),
            area@ == fresh_area(s as int, e as int, perm),
    {
        let bytes = (e - s) * PAGE_SIZE;
        let data: Vec<u8> = vec![0u8; bytes];
        let area = MapArea { start_vpn: s, end_vpn: e, map_type: MapType::Framed, map_perm: perm, data };
        assert(area@.data =~= fresh_area(s as int, e as int, perm).data);
        area
    }

    /// An identically mapped area over the pages from `s` up to `e`.
    pub fn new_identical(s: usize, e: usize, perm: u8) -> (area: Self)
        requires
            s < e <= vpn_limit(),
        ensures
            area@.wf(),
            area@ == (AreaView {
                start: s as int,
                end: e as int,
                map_type: MapType::Identical,
                perm,
                data: Seq::empty(),
            }),
    {
        MapArea {
            start_vpn: s,
            end_vpn: e,
            map_type: MapType::Identical,
            map_perm: perm,
            data: Vec::new(),
        }
    }

    /// The first page of the area.
    pub fn start_vpn(&self) -> (vpn: usize)
        ensures
            vpn == self@.start,
    {
        self.start_vpn
    }

    /// One past the last page of the area.
    pub fn end_vpn(&self) -> (vpn: usize)
        ensures
            vpn == self@.end,
    {
        self.end_vpn
    }

    /// How the pages of the area come by their frames.
    pub fn map_type(&self) -> (t: MapType)
        ensures
            t == self@.map_type,
    {
        self.map_type
    }

    /// The permissions of the pages of the area.
    pub fn map_perm(&self) -> (perm: u8)
        ensures
            perm == self@.perm,
    {
        self.map_perm
    }

    /// Takes the pages from `s` up to `e` out of the area, which reaches into
    /// that range; returns the part below and the part above, as far as there
    /// is any.
    fn split(self, s: usize, e: usize) -> (parts: (Option<MapArea>, Option<MapArea>))
        requires
            self@.wf(),
            s < e,
            self@.meets(s as int, e as int),
        ensures
            pieces(parts.0, parts.1) == self@.cut(s as int, e as int),
    {
        let mut area = self;
        let framed = area.map_type == MapType::Framed;
        let start = area.start_vpn;
        let end = area.end_vpn;
        let above = if e < end {
            assert((e - start) * 4096 <= (end - start) * 4096);
            let data = if framed {
                area.data.split_off((e - start) * PAGE_SIZE)
            } else {
                Vec::new()
            };
            let part = MapArea {
                start_vpn: e,
                end_vpn: end,
                map_type: area.map_type,
                map_perm: area.map_perm,
                data,
            };
            assert(part@.data =~= self@.above(e as int).data);
            Some(part)
        } else {
            None
        };
        let below = if start < s {
            assert((s - start) * 4096 <= (end - start) * 4096);
            if framed {
                area.data.truncate((s - start) * PAGE_SIZE);
            }
            let part = MapArea {
                start_vpn: start,
                end_vpn: s,
                map_type: area.map_type,
                map_perm: area.map_perm,
                data: area.data,
            };
            assert(part@.data =~= self@.below(s as int).data);
            Some(part)
        } else {
            None
        };
        (below, above)
    }
}

/// The sequence made of the parts that are there.
pub open spec fn pieces(below: Option<MapArea>, above: Option<MapArea>) -> Seq<AreaView> {
    (match below {
        Some(a) => seq![a@],
        None => Seq::empty(),
    }) + (match above {
        Some(a) => seq![a@],
        None => Seq::empty(),
    })
}

/// The views of a sequence of areas.
pub open spec fn views(areas: Seq<MapArea>) -> Seq<AreaView> {
    areas.map_values(|a: MapArea| a@)
}

/// A virtual address space.
pub struct MemorySet {
    token: usize,
    areas: Vec<MapArea>,
}

impl View for MemorySet {
    type V = MemorySetView;

    closed spec fn view(&self) -> MemorySetView {
        MemorySetView { token: self.token, areas: views(self.areas@) }
    }
}

impl MemorySet {
    /// The content of the address space is well formed.
    pub open spec fn wf(&self) -> bool {
        self@.wf()
    }

    /// An address space without any area.
    pub fn new_bare(token: usize) -> (ms: Self)
        ensures
            ms.wf(),
            ms@ == (MemorySetView { token, areas: Seq::empty() }),
    {
        let ms = MemorySet { token, areas: Vec::new() };
        assert(ms@.areas =~= Seq::empty());
        ms
    }

    /// The handle by which translation helpers know this address space.
    pub fn token(&self) -> (t: usize)
        ensures
            t == self@.token,
    {
        self.token
    }

    /// Number of map areas.
    pub fn area_count(&self) -> (n: usize)
        ensures
            n == self@.areas.len(),
    {
        self.areas.len()
    }

    /// The `i`-th map area.
    pub fn area(&self, i: usize) -> (a: &MapArea)
        requires
            i < self@.areas.len(),
        ensures
            a@ == self@.areas[i as int],
    {
        &self.areas[i]
    }

    /// The index of the area that holds page `vpn`, if the page is mapped.
    pub fn find_area(&self, vpn: usize) -> (found: Option<usize>)
        requires
            self.wf(),
        ensures
            match found {
                Some(i) => i < self@.areas.len() && self@.areas[i as int].covers(vpn as int)
                    && self@.is_mapped(vpn as int) && self@.area_of(vpn as int) == i,
                None => !self@.is_mapped(vpn as int),
            },
    {
        let n = self.areas.len();
        let mut i: usize = 0;
        while i < n
            invariant
                self.wf(),
                n == self.areas@.len(),
                i <= n,
                forall|j: int| 0 <= j < i ==> !(#[trigger] self@.areas[j]).covers(vpn as int),
            decreases n - i,
        {
            if self.areas[i].start_vpn <= vpn && vpn < self.areas[i].end_vpn {
                proof {
                    assert(self@.areas[i as int].covers(vpn as int));
                    self@.lemma_area_unique(vpn as int, i as int);
                }
                return Some(i);
            }
            i = i + 1;
        }
        None
    }

    /// Whether page `vpn` is mapped.
    pub fn is_mapped(&self, vpn: usize) -> (b: bool)
        requires
            self.wf(),
        ensures
            b == self@.is_mapped(vpn as int),
    {
        self.find_area(vpn).is_some()
    }

    /// Whether some area shares a page with the range from `s` up to `e`.
    pub fn overlaps(&self, s: usize, e: usize) -> (b: bool)
        requires
            self.wf(),
        ensures
            b == self@.overlaps(s as int, e as int),
    {
        let n = self.areas.len();
        let mut i: usize = 0;
        while i < n
            invariant
                n == self.areas@.len(),
                i <= n,
                forall|j: int| 0 <= j < i ==> !(#[trigger] self@.areas[j]).meets(s as int, e as int),
            decreases n - i,
        {
            if self.areas[i].start_vpn < e && s < self.areas[i].end_vpn {
                assert(self@.areas[i as int].meets(s as int, e as int));
                return true;
            }
            i = i + 1;
        }
        false
    }

    /// Whether every page from `s` up to `e` is mapped.
    pub fn all_mapped(&self, s: usize, e: usize) -> (b: bool)
        requires
            self.wf(),
        ensures
            b == self@.all_mapped(s as int, e as int),
    {
        let mut cur = s;
        while cur < e
            invariant
                self.wf(),
                s <= cur,
                forall|vpn: int| s <= vpn < cur ==> self@.is_mapped(vpn),
            decreases
                    (if cur < e {
                        e - cur
                    } else {
                        0
                    }),
        {
            match self.find_area(cur) {
                None => {
                    return false;
                },
                Some(i) => {
                    let next = self.areas[i].end_vpn;
                    proof {
                        let a = self@.areas[i as int];
                        assert(a.wf());
                        assert(a.covers(cur as int));
                        assert(next == a.end);
                        assert forall|vpn: int| s <= vpn < next implies self@.is_mapped(vpn) by {
                            if vpn >= cur {
                                assert(a.covers(vpn));
                            }
                        }
                    }
                    cur = next;
                },
            }
        }
        true
    }

    /// Whether every page from `s` up to `e` is backed by a frame of its own.
    pub fn all_framed(&self, s: usize, e: usize) -> (b: bool)
        requires
            self.wf(),
        ensures
            b == self@.all_framed(s as int, e as int),
    {
        let mut cur = s;
        while cur < e
            invariant
                self.wf(),
                s <= cur,
                forall|vpn: int| s <= vpn < cur ==> self@.is_framed(vpn),
            decreases
                    (if cur < e {
                        e - cur
                    } else {
                        0
                    }),
        {
            match self.find_area(cur) {
                None => {
                    assert(!self@.is_framed(cur as int));
                    return false;
                },
                Some(i) => {
                    if self.areas[i].map_type != MapType::Framed {
                        assert(!self@.is_framed(cur as int));
                        return false;
                    }
                    let next = self.areas[i].end_vpn;
                    proof {
                        let a = self@.areas[i as int];
                        assert(a.wf());
                        assert(a.covers(cur as int));
                        assert(next == a.end);
                        assert forall|vpn: int| s <= vpn < next implies self@.is_framed(vpn) by {
                            if vpn >= cur {
                                assert(a.covers(vpn));
                                self@.lemma_area_unique(vpn, i as int);
                            }
                        }
                    }
                    cur = next;
                },
            }
        }
        true
    }

    /// Whether the `len` bytes from address `ptr` on lie in framed pages.
    pub fn is_accessible(&self, ptr: usize, len: usize) -> (b: bool)
        requires
            self.wf(),
        ensures
            b == self@.accessible(ptr as int, len as int),
    {
        if len == 0 {
            return true;
        }
        if len - 1 > usize::MAX - ptr {
            return false;
        }
        let last = ptr + (len - 1);
        proof {
            lemma_accessible_by_pages(self@, ptr as int, len as int);
        }
        self.all_framed(floor_page(ptr), floor_page(last) + 1)
    }

    /// The byte at address `va`, if it lies in a framed page.
    pub fn read_byte(&self, va: usize) -> (byte: Option<u8>)
        requires
            self.wf(),
        ensures
            byte == (if self@.is_framed(page_of(va as int)) {
                Some(self@.byte_at(va as int))
            } else {
                None
            }),
    {
        let vpn = floor_page(va);
        match self.find_area(vpn) {
            None => None,
            Some(i) => {
                if self.areas[i].map_type != MapType::Framed {
                    None
                } else {
                    proof {
                        self@.lemma_byte_at(va as int);
                    }
                    let off = va - self.areas[i].start_vpn * PAGE_SIZE;
                    Some(self.areas[i].data[off])
                }
            },
        }
    }

    /// Stores `b` at address `va` if it lies in a framed page; tells whether it did.
    pub fn write_byte(&mut self, va: usize, b: u8) -> (ok: bool)
        requires
            old(self).wf(),
        ensures
            final(self).wf(),
            ok == old(self)@.is_framed(page_of(va as int)),
            final(self)@ == (if ok {
                old(self)@.with_byte(va as int, b)
            } else {
                old(self)@
            }),
    {
        let vpn = floor_page(va);
        match self.find_area(vpn) {
            None => false,
            Some(i) => {
                if self.areas[i].map_type != MapType::Framed {
                    false
                } else {
                    proof {
                        self@.lemma_byte_at(va as int);
                        self@.lemma_with_byte(va as int, b, 0);
                    }
                    let off = va - self.areas[i].start_vpn * PAGE_SIZE;
                    self.areas[i].data[off] = b;
                    proof {
                        let want = old(self)@.with_byte(va as int, b);
                        assert(self@.areas.len() == want.areas.len());
                        assert forall|j: int| 0 <= j < self@.areas.len() implies self@.areas[j]
                            == want.areas[j] by {
                            if j != i {
                                assert(self.areas@[j] == old(self).areas@[j]);
                            }
                        }
                        assert(self@.areas =~= want.areas);
                    }
                    true
                }
            },
        }
    }

    /// A copy of the `len` bytes from address `ptr` on, if they all lie in
    /// framed pages.
    pub fn read_bytes(&self, ptr: usize, len: usize) -> (bytes: Option<Vec<u8>>)
        requires
            self.wf(),
        ensures
            match bytes {
                Some(d) => self@.accessible(ptr as int, len as int) && d@ == self@.bytes_at(
                    ptr as int,
                    len as int,
                ),
                None => !self@.accessible(ptr as int, len as int),
            },
    {
        if !self.is_accessible(ptr, len) {
            return None;
        }
        let mut out: Vec<u8> = Vec::new();
        let mut k: usize = 0;
        while k < len
            invariant
                self.wf(),
                self@.accessible(ptr as int, len as int),
                k <= len,
                out@.len() == k,
                forall|j: int| 0 <= j < k ==> out@[j] == self@.byte_at(ptr + j),
            decreases len - k,
        {
            assert(self@.is_framed(page_of(ptr + k)));
            let byte = self.read_byte(ptr + k);
            out.push(byte.unwrap());
            k = k + 1;
        }
        assert(out@ =~= self@.bytes_at(ptr as int, len as int));
        Some(out)
    }

    /// Stores `data` from address `ptr` on if all of it falls into framed
    /// pages; otherwise stores nothing. Tells whether it stored.
    pub fn write_bytes(&mut self, ptr: usize, data: &Vec<u8>) -> (ok: bool)
        requires
            old(self).wf(),
        ensures
            final(self).wf(),
            ok == old(self)@.accessible(ptr as int, data@.len() as int),
            final(self)@ == (if ok {
                old(self)@.with_bytes(ptr as int, data@)
            } else {
                old(self)@
            }),
            old(self)@.same_layout(final(self)@),
    {
        let len = data.len();
        if !self.is_accessible(ptr, len) {
            assert(old(self)@.same_layout(self@));
            return false;
        }
        let mut k: usize = 0;
        assert(data@.take(0) =~= Seq::<u8>::empty());
        while k < len
            invariant
                old(self).wf(),
                self.wf(),
                len == data@.len(),
                old(self)@.accessible(ptr as int, len as int),
                k <= len,
                self@ == old(self)@.with_bytes(ptr as int, data@.take(k as int)),
            decreases len - k,
        {
            proof {
                let part = data@.take(k as int);
                assert(old(self)@.accessible(ptr as int, part.len() as int));
                assert(old(self)@.is_framed(page_of(ptr + k)));
                old(self)@.lemma_with_bytes(ptr as int, part, (ptr + k) as int);
                old(self)@.lemma_same_layout(self@, page_of(ptr + k));
                assert(data@.take(k + 1).drop_last() =~= part);
                assert(data@.take(k + 1).last() == data@[k as int]);
            }
            let stored = self.write_byte(ptr + k, data[k]);
            assert(stored);
            k = k + 1;
        }
        proof {
            assert(data@.take(len as int) =~= data@);
            old(self)@.lemma_with_bytes(ptr as int, data@, 0);
        }
        true
    }

    /// The bytes of the NUL-terminated string at address `ptr`, without the
    /// NUL; nothing if the string runs into a page that is not framed or off
    /// the end of the address space.
    pub fn translated_str(&self, ptr: usize) -> (string: Option<Vec<u8>>)
        requires
            self.wf(),
        ensures
            match string {
                Some(bytes) => is_string_at(self@, ptr as int, bytes@) && string_at(
                    self@,
                    ptr as int,
                ) == Some(bytes@),
                None => string_at(self@, ptr as int) is None,
            },
    {
        let mut out: Vec<u8> = Vec::new();
        let mut va = ptr;
        loop
            invariant
                self.wf(),
                va == ptr + out@.len(),
                forall|j: int|
                    0 <= j < out@.len() ==> self@.is_framed(#[trigger] page_of(ptr + j)),
                forall|j: int|
                    0 <= j < out@.len() ==> #[trigger] out@[j] == self@.byte_at(ptr + j) && out@[j]
                        != 0,
            decreases usize::MAX - va,
        {
            match self.read_byte(va) {
                None => {
                    assert(out@ =~= self@.bytes_at(ptr as int, out@.len() as int));
                    assert(runs_off(self@, ptr as int, out@.len() as int));
                    proof {
                        lemma_runs_off(self@, ptr as int, out@.len() as int);
                    }
                    return None;
                },
                Some(b) => {
                    if b == 0 {
                        assert(out@ =~= self@.bytes_at(ptr as int, out@.len() as int));
                        assert(page_of(ptr + out@.len()) == page_of(va as int));
                        proof {
                            assert(is_string_at(self@, ptr as int, out@));
                            let other = choose|bytes: Seq<u8>| is_string_at(self@, ptr as int, bytes);
                            lemma_string_unique(self@, ptr as int, out@, other);
                        }
                        return Some(out);
                    }
                    if va == usize::MAX {
                        assert(out@.push(b) =~= self@.bytes_at(ptr as int, out@.len() as int + 1));
                        assert(page_of(ptr + out@.len()) == page_of(va as int));
                        assert(runs_off(self@, ptr as int, out@.len() as int + 1));
                        proof {
                            lemma_runs_off(self@, ptr as int, out@.len() as int + 1);
                        }
                        return None;
                    }
                    assert(page_of(ptr + out@.len()) == page_of(va as int));
                    out.push(b);
                    va = va + 1;
                },
            }
        }
    }

    /// The ranges, one per page touched, into which the pages split the `len`
    /// bytes from address `ptr` on: each is given by its first address and
    /// its length. Nothing if some of the bytes lie outside framed pages.
    pub fn translated_byte_buffer(&self, ptr: usize, len: usize) -> (slices: Option<
        Vec<(usize, usize)>,
    >)
        requires
            self.wf(),
        ensures
            match slices {
                Some(v) => self@.accessible(ptr as int, len as int) && is_page_split(
                    v@,
                    ptr as int,
                    len as int,
                ),
                None => !self@.accessible(ptr as int, len as int),
            },
    {
        if !self.is_accessible(ptr, len) {
            return None;
        }
        let mut out: Vec<(usize, usize)> = Vec::new();
        let mut done: usize = 0;
        while done < len
            invariant
                ptr + len <= usize::MAX + 1,
                done <= len,
                is_page_split(out@, ptr as int, done as int),
                out@.len() > 0 && done < len ==> ends_page(
                    out@.last().0 as int,
                    out@.last().1 as int,
                ),
            decreases len - done,
        {
            let start = ptr + done;
            let n = slice_len(start, len - done);
            proof {
                lemma_split_push(out@, ptr as int, done as int, start, n);
            }
            out.push((start, n));
            done = done + n;
        }
        Some(out)
    }

    /// Maps the pages that the addresses from `start_va` up to `end_va` touch
    /// to fresh zeroed frames. Refuses, changing nothing, when one of these
    /// pages is mapped already or the range is too large to be backed.
    pub fn insert_framed_area(&mut self, start_va: usize, end_va: usize, perm: u8) -> (ok: bool)
        requires
            old(self).wf(),
        ensures
            final(self).wf(),
            ok == insert_allowed(old(self)@, page_of(start_va as int), page_above(end_va as int)),
            final(self)@ == (if ok && page_of(start_va as int) < page_above(end_va as int) {
                old(self)@.push(
                    fresh_area(page_of(start_va as int), page_above(end_va as int), perm),
                )
            } else {
                old(self)@
            }),
    {
        let s = floor_page(start_va);
        let e = ceil_page(end_va);
        if s >= e {
            return true;
        }
        if self.overlaps(s, e) {
            return false;
        }
        if e - s > (isize::MAX as usize) / PAGE_SIZE {
            return false;
        }
        let area = MapArea::new_framed(s, e, perm);
        self.push(area);
        true
    }

    /// Adds an area that shares no page with the areas already there.
    pub fn push(&mut self, area: MapArea)
        requires
            old(self).wf(),
            area@.wf(),
            !old(self)@.overlaps(area@.start, area@.end),
        ensures
            final(self).wf(),
            final(self)@ == old(self)@.push(area@),
    {
        let ghost before = self@;
        self.areas.push(area);
        proof {
            assert(self@.areas =~= before.areas.push(area@));
            let w = self@;
            assert forall|i: int, j: int|
                0 <= i < w.areas.len() && 0 <= j < w.areas.len() && i != j implies (
            #[trigger] w.areas[i]).disjoint(#[trigger] w.areas[j]) by {
                if i < before.areas.len() && j < before.areas.len() {
                    assert(before.areas[i].disjoint(before.areas[j]));
                } else if i < before.areas.len() {
                    assert(!before.areas[i].meets(area@.start, area@.end));
                } else {
                    assert(!before.areas[j].meets(area@.start, area@.end));
                }
            }
            assert forall|i: int| 0 <= i < w.areas.len() implies (#[trigger] w.areas[i]).wf() by {
                if i < before.areas.len() {
                    assert(before.areas[i].wf());
                }
            }
        }
    }

    /// Unmaps the pages that the addresses from `start_va` up to `end_va`
    /// touch. Refuses, changing nothing, unless every one of them is mapped.
    pub fn remove_framed(&mut self, start_va: usize, end_va: usize) -> (ok: bool)
        requires
            old(self).wf(),
        ensures
            final(self).wf(),
            ok == old(self)@.all_mapped(page_of(start_va as int), page_above(end_va as int)),
            final(self)@ == (if ok && page_of(start_va as int) < page_above(end_va as int) {
                old(self)@.carve(page_of(start_va as int), page_above(end_va as int))
            } else {
                old(self)@
            }),
    {
        let s = floor_page(start_va);
        let e = ceil_page(end_va);
        if s >= e {
            return true;
        }
        if !self.all_mapped(s, e) {
            return false;
        }
        let ghost before = self@;
        let mut rest: Vec<MapArea> = Vec::new();
        std::mem::swap(&mut self.areas, &mut rest);
        let ghost orig = rest@;
        assert(views(orig) == before.areas);
        let ghost mut done: int = 0;
        proof {
            assert(orig.skip(0) =~= orig);
            assert(views(orig.take(0)) =~= Seq::<AreaView>::empty());
        }
        while rest.len() > 0
            invariant
                s < e,
                0 <= done <= orig.len(),
                rest@ == orig.skip(done),
                self.token == before.token,
                views(orig) == before.areas,
                before.wf(),
                views(self.areas@) == carve_areas(views(orig.take(done)), s as int, e as int),
            decreases rest.len(),
        {
            let area = rest.remove(0);
            proof {
                assert(area == orig[done]);
                assert(area@ == before.areas[done]);
                assert(area@.wf());
                assert(orig.skip(done).remove(0) =~= orig.skip(done + 1));
                assert(views(orig.take(done + 1)).drop_last() =~= views(orig.take(done)));
                assert(views(orig.take(done + 1)).last() == area@);
            }
            let ghost so_far = self.areas@;
            if area.start_vpn < e && s < area.end_vpn {
                let (below, above) = area.split(s, e);
                match below {
                    Some(part) => {
                        self.areas.push(part);
                    },
                    None => {},
                }
                match above {
                    Some(part) => {
                        self.areas.push(part);
                    },
                    None => {},
                }
                assert(views(self.areas@) =~= views(so_far) + pieces(below, above));
            } else {
                self.areas.push(area);
                assert(views(self.areas@) =~= views(so_far) + seq![area@]);
            }
            proof {
                done = done + 1;
            }
        }
        proof {
            assert(orig.take(orig.len() as int) =~= orig);
            lemma_carve_mapping(before, s as int, e as int, 0);
        }
        true
    }
}

/// The `n` bytes from `start` on lie in one page.
#[verifier::opaque]
pub open spec fn in_one_page(start: int, n: int) -> bool {
    page_of(start) == page_of(start + n - 1)
}

/// The `n` bytes from `start` on end where a page ends.
#[verifier::opaque]
pub open spec fn ends_page(start: int, n: int) -> bool {
    (start + n) % (PAGE_SIZE as int) == 0
}

/// A range that starts at `start` and is no longer than what is left of the
/// page stays in that page, and ends where the page ends if it takes all that is left.
proof fn lemma_slice_in_page(start: int, n: int)
    requires
        start >= 0,
        n >= 1,
        start % 4096 + n <= 4096,
    ensures
        in_one_page(start, n),
        start % 4096 + n == 4096 ==> ends_page(start, n),
{
    reveal(in_one_page);
    reveal(ends_page);
}

/// How many of the `left` bytes from `start` on lie in the page of `start`.
fn slice_len(start: usize, left: usize) -> (n: usize)
    requires
        left > 0,
    ensures
        1 <= n <= left,
        in_one_page(start as int, n as int),
        n < left ==> ends_page(start as int, n as int),
{
    let room = PAGE_SIZE - start % PAGE_SIZE;
    let n = if left < room {
        left
    } else {
        room
    };
    proof {
        lemma_slice_in_page(start as int, n as int);
    }
    n
}

/// A page split grows by the slice that follows it.
proof fn lemma_split_push(slices: Seq<(usize, usize)>, ptr: int, done: int, start: usize, n: usize)
    requires
        is_page_split(slices, ptr, done),
        start == ptr + done,
        n >= 1,
        in_one_page(start as int, n as int),
        slices.len() > 0 ==> ends_page(slices.last().0 as int, slices.last().1 as int),
    ensures
        is_page_split(slices.push((start, n)), ptr, done + n),
{
    let out = slices.push((start, n));
    assert(out.last() == (start, n));
    assert forall|k: int| 0 <= k < out.len() implies #[trigger] slice_ok(out, ptr, k) by {
        if k < slices.len() {
            assert(slice_ok(slices, ptr, k));
            assert(out[k] == slices[k]);
            if k > 0 {
                assert(out[k - 1] == slices[k - 1]);
            }
            if k + 1 == slices.len() {
                assert(slices[k] == slices.last());
            }
        } else if k > 0 {
            assert(out[k - 1] == slices.last());
        }
    }
}

/// `bytes` is the string at address `ptr`: its bytes lie there in framed
/// pages, none of them is NUL, and a NUL follows them.
pub open spec fn is_string_at(v: MemorySetView, ptr: int, bytes: Seq<u8>) -> bool {
    &&& ptr + bytes.len() <= usize::MAX
    &&& forall|j: int| 0 <= j <= bytes.len() ==> v.is_framed(#[trigger] page_of(ptr + j))
    &&& bytes == v.bytes_at(ptr, bytes.len() as int)
    &&& forall|j: int| 0 <= j < bytes.len() ==> #[trigger] bytes[j] != 0
    &&& v.byte_at(ptr + bytes.len()) == 0
}

/// The NUL-terminated string at address `ptr`, without the NUL, if there is one.
pub open spec fn string_at(v: MemorySetView, ptr: int) -> Option<Seq<u8>> {
    if exists|bytes: Seq<u8>| is_string_at(v, ptr, bytes) {
        Some(choose|bytes: Seq<u8>| is_string_at(v, ptr, bytes))
    } else {
        None
    }
}

/// There is at most one string at an address.
pub proof fn lemma_string_unique(v: MemorySetView, ptr: int, a: Seq<u8>, b: Seq<u8>)
    requires
        is_string_at(v, ptr, a),
        is_string_at(v, ptr, b),
    ensures
        a == b,
{
    if a.len() < b.len() {
        assert(b[a.len() as int] != 0);
        assert(v.bytes_at(ptr, b.len() as int)[a.len() as int] == v.byte_at(ptr + a.len()));
    } else if b.len() < a.len() {
        assert(a[b.len() as int] != 0);
        assert(v.bytes_at(ptr, a.len() as int)[b.len() as int] == v.byte_at(ptr + b.len()));
    } else {
        assert(a =~= b);
    }
}

/// A string that runs off has no end.
pub proof fn lemma_runs_off(v: MemorySetView, ptr: int, n: int)
    requires
        runs_off(v, ptr, n),
    ensures
        string_at(v, ptr) is None,
{
    if exists|bytes: Seq<u8>| is_string_at(v, ptr, bytes) {
        let bytes = choose|bytes: Seq<u8>| is_string_at(v, ptr, bytes);
        if bytes.len() < n {
            assert(v.bytes_at(ptr, n)[bytes.len() as int] != 0);
        } else {
            assert(v.is_framed(page_of(ptr + n)));
        }
    }
}

/// The string at address `ptr` has `n` bytes that are not NUL and then
/// leaves the framed pages or the address space.
pub open spec fn runs_off(v: MemorySetView, ptr: int, n: int) -> bool {
    &&& n >= 0
    &&& forall|j: int| 0 <= j < n ==> v.is_framed(#[trigger] page_of(ptr + j))
    &&& forall|j: int| 0 <= j < n ==> #[trigger] v.bytes_at(ptr, n)[j] != 0
    &&& ptr + n > usize::MAX || !v.is_framed(page_of(ptr + n))
}

/// Slice `k` of `slices` is not empty, stays within one page, starts where
/// the slice before it ends (the first at `ptr`), and, unless it is the
/// last, ends where a page ends.
pub open spec fn slice_ok(slices: Seq<(usize, usize)>, ptr: int, k: int) -> bool {
    &&& slices[k].1 > 0
    &&& in_one_page(slices[k].0 as int, slices[k].1 as int)
    &&& slices[k].0 == (if k == 0 {
        ptr
    } else {
        slices[k - 1].0 + slices[k - 1].1
    })
    &&& k + 1 < slices.len() ==> ends_page(slices[k].0 as int, slices[k].1 as int)
}

/// `slices` splits the `len` bytes from `ptr` on at the page boundaries: the
/// slices follow one another without gap from `ptr` to `ptr + len`, none is
/// empty, each stays within one page, and each but the last ends where a
/// page ends.
pub open spec fn is_page_split(slices: Seq<(usize, usize)>, ptr: int, len: int) -> bool {
    &&& forall|k: int| 0 <= k < slices.len() ==> #[trigger] slice_ok(slices, ptr, k)
    &&& (if slices.len() == 0 {
        len == 0
    } else {
        slices.last().0 + slices.last().1 == ptr + len
    })
}

/// Whether the pages from `s` up to `e` may be mapped into `v`: an empty
/// range always, another when none of its pages is mapped and its bytes can
/// be addressed.
pub open spec fn insert_allowed(v: MemorySetView, s: int, e: int) -> bool {
    s >= e || (!v.overlaps(s, e) && (e - s) * PAGE_SIZE as int <= isize::MAX)
}

/// Segment flag: the segment holds code.
pub const SEG_X: u8 = 1;

/// Segment flag: the segment may be written.
pub const SEG_W: u8 = 2;

/// Segment flag: the segment may be read.
pub const SEG_R: u8 = 4;

/// One loadable segment of a program image.
pub struct Segment {
    /// Address of the segment's first byte.
    pub start_va: usize,
    /// Bytes the segment takes in memory.
    pub mem_size: usize,
    /// Flags: read, write, execute.
    pub flags: u8,
    /// The bytes the image holds for the segment; the rest of it is zero.
    pub data: Vec<u8>,
}

/// A program as the loader sees it.
pub struct ProgramImage {
    /// Address of the first instruction.
    pub entry: usize,
    /// The loadable segments, in the order of the program headers.
    pub segments: Vec<Segment>,
}

/// The content of a loadable segment.
pub struct SegmentView {
    pub start_va: usize,
    pub mem_size: usize,
    pub flags: u8,
    pub data: Seq<u8>,
}

impl View for Segment {
    type V = SegmentView;

    open spec fn view(&self) -> SegmentView {
        SegmentView {
            start_va: self.start_va,
            mem_size: self.mem_size,
            flags: self.flags,
            data: self.data@,
        }
    }
}

/// The views of a sequence of segments.
pub open spec fn segment_views(segs: Seq<Segment>) -> Seq<SegmentView> {
    segs.map_values(|s: Segment| s@)
}

/// The page permissions of a user segment with the given flags.
pub open spec fn segment_perm(flags: u8) -> u8 {
    PERM_U | (if flags & SEG_R != 0 {
        PERM_R
    } else {
        0u8
    }) | (if flags & SEG_W != 0 {
        PERM_W
    } else {
        0u8
    }) | (if flags & SEG_X != 0 {
        PERM_X
    } else {
        0u8
    })
}

/// The page permissions of a user segment with the given flags.
pub fn perm_of_flags(flags: u8) -> (perm: u8)
    ensures
        perm == segment_perm(flags),
{
    let r: u8 = if flags & SEG_R != 0 {
        PERM_R
    } else {
        0u8
    };
    let w: u8 = if flags & SEG_W != 0 {
        PERM_W
    } else {
        0u8
    };
    let x: u8 = if flags & SEG_X != 0 {
        PERM_X
    } else {
        0u8
    };
    PERM_U | r | w | x
}

/// Whether segment `seg` can be loaded into `v`: it ends inside the address
/// space, holds no more bytes than it takes in memory, is not empty, and its
/// pages are free.
pub open spec fn segment_fits(v: MemorySetView, seg: SegmentView) -> bool {
    &&& seg.start_va + seg.mem_size <= usize::MAX
    &&& seg.data.len() <= seg.mem_size
    &&& page_of(seg.start_va as int) < page_above(seg.start_va + seg.mem_size)
    &&& insert_allowed(
        v,
        page_of(seg.start_va as int),
        page_above(seg.start_va + seg.mem_size),
    )
}

/// The address space `v` with segment `seg` loaded: a fresh framed area
/// over the segment's pages that holds the segment's bytes at its address.
pub open spec fn with_segment(v: MemorySetView, seg: SegmentView) -> MemorySetView {
    v.push(
        fresh_area(
            page_of(seg.start_va as int),
            page_above(seg.start_va + seg.mem_size),
            segment_perm(seg.flags),
        ),
    ).with_bytes(seg.start_va as int, seg.data)
}

/// The address space `v` with the segments loaded one after the other, or
/// nothing if one of them does not fit.
pub open spec fn with_segments(v: MemorySetView, segs: Seq<SegmentView>) -> Option<MemorySetView>
    decreases segs.len(),
{
    if segs.len() == 0 {
        Some(v)
    } else {
        match with_segments(v, segs.drop_last()) {
            None => None,
            Some(w) => if segment_fits(w, segs.last()) {
                Some(with_segment(w, segs.last()))
            } else {
                None
            },
        }
    }
}

/// The first page above all the segments.
pub open spec fn image_end(segs: Seq<SegmentView>) -> int
    decreases segs.len(),
{
    if segs.len() == 0 {
        0
    } else {
        let rest = image_end(segs.drop_last());
        let end = page_above(segs.last().start_va + segs.last().mem_size);
        if end > rest {
            end
        } else {
            rest
        }
    }
}

/// Address of the bottom of the user stack: one guard page above the image.
pub open spec fn user_stack_base(segs: Seq<SegmentView>) -> int {
    (image_end(segs) + 1) * PAGE_SIZE as int
}

/// The trampoline page, mapped alike in every address space.
pub open spec fn trampoline_area() -> AreaView {
    AreaView {
        start: vpn_limit() - 1,
        end: vpn_limit(),
        map_type: MapType::Identical,
        perm: PERM_R | PERM_X,
        data: Seq::empty(),
    }
}

/// The address space of a program: the trampoline, the segments, a user
/// stack one guard page above them, and the page of the trap frame. Nothing
/// if a segment does not fit or the stack or the trap frame finds its pages taken.
pub open spec fn image_space(token: usize, segs: Seq<SegmentView>) -> Option<MemorySetView> {
    let base = MemorySetView { token, areas: seq![trampoline_area()] };
    match with_segments(base, segs) {
        None => None,
        Some(loaded) => {
            let bottom = image_end(segs) + 1;
            let top = bottom + USER_STACK_SIZE as int / PAGE_SIZE as int;
            let trap = page_of(TRAP_CONTEXT as int);
            if top <= trap && !loaded.overlaps(bottom, top) && !loaded.overlaps(trap, trap + 1) {
                Some(
                    loaded.push(fresh_area(bottom, top, PERM_R | PERM_W | PERM_U)).push(
                        fresh_area(trap, trap + 1, PERM_R | PERM_W),
                    ),
                )
            } else {
                None
            }
        },
    }
}

/// Where the last area of `v` is a fresh framed area, the bytes that lie
/// in its pages are accessible and zero.
pub proof fn lemma_fresh_area_is_zero(v: MemorySetView, s: int, e: int, perm: u8, ptr: int, len: int)
    requires
        v.wf(),
        v.areas.len() > 0,
        v.areas.last() == fresh_area(s, e, perm),
        0 <= ptr,
        0 <= len,
        s * PAGE_SIZE as int <= ptr,
        ptr + len <= e * PAGE_SIZE as int,
        ptr + len <= usize::MAX + 1,
    ensures
        v.accessible(ptr, len),
        v.bytes_at(ptr, len) == Seq::new(len as nat, |k: int| 0u8),
{
    let last = v.areas.len() - 1;
    assert forall|k: int| 0 <= k < len implies v.is_framed(#[trigger] page_of(ptr + k)) && v.byte_at(
        ptr + k,
    ) == 0 by {
        let vpn = page_of(ptr + k);
        assert(s <= vpn < e);
        assert(v.areas[last].covers(vpn));
        v.lemma_area_unique(vpn, last);
        v.lemma_byte_at(ptr + k);
    }
    assert(v.bytes_at(ptr, len) =~= Seq::new(len as nat, |k: int| 0u8));
}

/// Loading segments keeps an address space well formed.
pub proof fn lemma_with_segments_wf(v: MemorySetView, segs: Seq<SegmentView>)
    requires
        v.wf(),
        with_segments(v, segs) is Some,
    ensures
        with_segments(v, segs)->0.wf(),
        with_segments(v, segs)->0.token == v.token,
    decreases segs.len(),
{
    if segs.len() > 0 {
        let w = with_segments(v, segs.drop_last())->0;
        lemma_with_segments_wf(v, segs.drop_last());
        let seg = segs.last();
        let s = page_of(seg.start_va as int);
        let e = page_above(seg.start_va + seg.mem_size);
        lemma_map_unmap_restores(w, s, e, segment_perm(seg.flags));
        let pushed = w.push(fresh_area(s, e, segment_perm(seg.flags)));
        lemma_fresh_area_is_zero(
            pushed,
            s,
            e,
            segment_perm(seg.flags),
            seg.start_va as int,
            seg.data.len() as int,
        );
        pushed.lemma_with_bytes(seg.start_va as int, seg.data, 0);
    }
}

/// The address space of a program is well formed; its last two areas are
/// the user stack and the page of the trap frame, both filled with zeros.
pub proof fn lemma_image_space(token: usize, segs: Seq<SegmentView>)
    requires
        image_space(token, segs) is Some,
    ensures
        ({
            let v = image_space(token, segs)->0;
            let bottom = image_end(segs) + 1;
            let top = bottom + USER_STACK_SIZE as int / PAGE_SIZE as int;
            &&& v.wf()
            &&& v.token == token
            &&& v.areas.len() >= 2
            &&& v.areas[v.areas.len() - 2] == fresh_area(bottom, top, PERM_R | PERM_W | PERM_U)
            &&& 0 <= bottom
            &&& top <= page_of(TRAP_CONTEXT as int)
            &&& user_stack_base(segs) + USER_STACK_SIZE == top * PAGE_SIZE as int
        }),
{
    let base = MemorySetView { token, areas: seq![trampoline_area()] };
    assert(base.wf());
    let loaded = with_segments(base, segs)->0;
    lemma_with_segments_wf(base, segs);
    lemma_image_end(segs);
    let bottom = image_end(segs) + 1;
    let top = bottom + USER_STACK_SIZE as int / PAGE_SIZE as int;
    let trap = page_of(TRAP_CONTEXT as int);
    lemma_map_unmap_restores(loaded, bottom, top, PERM_R | PERM_W | PERM_U);
    let stacked = loaded.push(fresh_area(bottom, top, PERM_R | PERM_W | PERM_U));
    assert(!stacked.overlaps(trap, trap + 1)) by {
        if stacked.overlaps(trap, trap + 1) {
            let i = choose|i: int|
                0 <= i < stacked.areas.len() && (#[trigger] stacked.areas[i]).meets(trap, trap + 1);
            if i < loaded.areas.len() {
                assert(loaded.areas[i].meets(trap, trap + 1));
            }
        }
    }
    lemma_map_unmap_restores(stacked, trap, trap + 1, PERM_R | PERM_W);
    let v = image_space(token, segs)->0;
    assert(v == stacked.push(fresh_area(trap, trap + 1, PERM_R | PERM_W)));
    assert(v.areas[v.areas.len() - 2] == stacked.areas[stacked.areas.len() - 1]);
    assert(USER_STACK_SIZE as int / PAGE_SIZE as int == 2);
    assert(v.token == token);
    assert(trap + 1 <= vpn_limit());
}

/// Whether a range overlaps an address space depends on the areas only.
pub proof fn lemma_overlaps_by_areas(a: MemorySetView, b: MemorySetView, s: int, e: int)
    requires
        a.areas == b.areas,
    ensures
        a.overlaps(s, e) == b.overlaps(s, e),
{
    if a.overlaps(s, e) {
        let i = choose|i: int| 0 <= i < a.areas.len() && (#[trigger] a.areas[i]).meets(s, e);
        assert(b.areas[i].meets(s, e));
    }
    if b.overlaps(s, e) {
        let i = choose|i: int| 0 <= i < b.areas.len() && (#[trigger] b.areas[i]).meets(s, e);
        assert(a.areas[i].meets(s, e));
    }
}

/// Storing bytes in two address spaces with the same areas gives address
/// spaces with the same areas.
pub proof fn lemma_with_bytes_any_token(a: MemorySetView, b: MemorySetView, ptr: int, data: Seq<u8>)
    requires
        a.wf(),
        a.areas == b.areas,
        ptr >= 0,
        a.accessible(ptr, data.len() as int),
    ensures
        a.with_bytes(ptr, data).areas == b.with_bytes(ptr, data).areas,
    decreases data.len(),
{
    if data.len() > 0 {
        let front = data.drop_last();
        assert(a.accessible(ptr, front.len() as int));
        lemma_with_bytes_any_token(a, b, ptr, front);
        let ma = a.with_bytes(ptr, front);
        let mb = b.with_bytes(ptr, front);
        a.lemma_with_bytes(ptr, front, 0);
        let va = ptr + data.len() - 1;
        let vpn = page_of(va);
        assert(a.is_framed(page_of(ptr + (data.len() - 1))));
        a.lemma_same_layout(ma, vpn);
        assert(mb.wf()) by {
            assert forall|i: int| 0 <= i < mb.areas.len() implies (#[trigger] mb.areas[i]).wf() by {
                assert(ma.areas[i].wf());
            }
            assert forall|i: int, j: int|
                0 <= i < mb.areas.len() && 0 <= j < mb.areas.len() && i != j implies (
            #[trigger] mb.areas[i]).disjoint(#[trigger] mb.areas[j]) by {
                assert(ma.areas[i].disjoint(ma.areas[j]));
            }
        }
        let i = ma.area_of(vpn);
        assert(mb.areas[i].covers(vpn));
        mb.lemma_area_unique(vpn, i);
    }
}

/// Loading segments into two address spaces with the same areas succeeds
/// for both or for none, and gives address spaces with the same areas.
pub proof fn lemma_segments_any_token(a: MemorySetView, b: MemorySetView, segs: Seq<SegmentView>)
    requires
        a.wf(),
        a.areas == b.areas,
    ensures
        with_segments(a, segs) is Some == with_segments(b, segs) is Some,
        with_segments(a, segs) is Some ==> with_segments(a, segs)->0.areas == with_segments(
            b,
            segs,
        )->0.areas,
    decreases segs.len(),
{
    if segs.len() > 0 {
        lemma_segments_any_token(a, b, segs.drop_last());
        if with_segments(a, segs.drop_last()) is Some {
            let wa = with_segments(a, segs.drop_last())->0;
            let wb = with_segments(b, segs.drop_last())->0;
            lemma_with_segments_wf(a, segs.drop_last());
            let seg = segs.last();
            let s = page_of(seg.start_va as int);
            let e = page_above(seg.start_va + seg.mem_size);
            lemma_overlaps_by_areas(wa, wb, s, e);
            if segment_fits(wa, seg) {
                lemma_map_unmap_restores(wa, s, e, segment_perm(seg.flags));
                let pa = wa.push(fresh_area(s, e, segment_perm(seg.flags)));
                let pb = wb.push(fresh_area(s, e, segment_perm(seg.flags)));
                lemma_fresh_area_is_zero(
                    pa,
                    s,
                    e,
                    segment_perm(seg.flags),
                    seg.start_va as int,
                    seg.data.len() as int,
                );
                lemma_with_bytes_any_token(pa, pb, seg.start_va as int, seg.data);
            }
        }
    }
}

/// The first page above the segments is no negative number.
pub proof fn lemma_image_end(segs: Seq<SegmentView>)
    ensures
        image_end(segs) >= 0,
    decreases segs.len(),
{
    if segs.len() > 0 {
        lemma_image_end(segs.drop_last());
    }
}

/// A copy of `bytes`.
pub fn copy_bytes(bytes: &Vec<u8>) -> (copy: Vec<u8>)
    ensures
        copy@ == bytes@,
{
    let n = bytes.len();
    let mut copy: Vec<u8> = Vec::new();
    let mut i: usize = 0;
    while i < n
        invariant
            n == bytes@.len(),
            i <= n,
            copy@ == bytes@.take(i as int),
        decreases n - i,
    {
        copy.push(bytes[i]);
        assert(bytes@.take(i + 1) =~= bytes@.take(i as int).push(bytes@[i as int]));
        i = i + 1;
    }
    assert(bytes@.take(n as int) =~= bytes@);
    copy
}

impl MemorySet {
    /// A deep copy of the address space under another token: the same areas
    /// with the same bytes, in frames of their own.
    pub fn from_existed_user(&self, token: usize) -> (copy: Self)
        requires
            self.wf(),
        ensures
            copy.wf(),
            copy@ == (MemorySetView { token, areas: self@.areas }),
    {
        let n = self.areas.len();
        let mut areas: Vec<MapArea> = Vec::new();
        let mut i: usize = 0;
        while i < n
            invariant
                n == self.areas@.len(),
                i <= n,
                views(areas@) == views(self.areas@).take(i as int),
            decreases n - i,
        {
            let a = &self.areas[i];
            let b = MapArea {
                start_vpn: a.start_vpn,
                end_vpn: a.end_vpn,
                map_type: a.map_type,
                map_perm: a.map_perm,
                data: copy_bytes(&a.data),
            };
            assert(b@ == a@);
            let ghost prev = areas@;
            areas.push(b);
            assert(views(areas@) =~= views(prev).push(b@));
            assert(views(self.areas@).take(i as int + 1) =~= views(self.areas@).take(
                i as int,
            ).push(a@));
            i = i + 1;
        }
        assert(views(self.areas@).take(n as int) =~= views(self.areas@));
        MemorySet { token, areas }
    }

    /// Loads one segment.
    fn load_segment(&mut self, seg: &Segment) -> (ok: bool)
        requires
            old(self).wf(),
        ensures
            final(self).wf(),
            ok == segment_fits(old(self)@, seg@),
            ok ==> final(self)@ == with_segment(old(self)@, seg@),
            ok ==> final(self)@.token == old(self)@.token,
    {
        if seg.mem_size > usize::MAX - seg.start_va {
            return false;
        }
        if seg.data.len() > seg.mem_size {
            return false;
        }
        let end_va = seg.start_va + seg.mem_size;
        if floor_page(seg.start_va) >= ceil_page(end_va) {
            return false;
        }
        let ghost before = self@;
        if !self.insert_framed_area(seg.start_va, end_va, perm_of_flags(seg.flags)) {
            return false;
        }
        proof {
            let s = page_of(seg.start_va as int);
            let e = page_above(end_va as int);
            let mid = self@;
            let last = before.areas.len() as int;
            assert(mid.areas[last] == fresh_area(s, e, segment_perm(seg.flags)));
            assert forall|k: int| 0 <= k < seg.data@.len() implies mid.is_framed(
                #[trigger] page_of(seg.start_va + k),
            ) by {
                let vpn = page_of(seg.start_va + k);
                assert(s <= vpn < e);
                assert(mid.areas[last].covers(vpn));
                mid.lemma_area_unique(vpn, last);
            }
            mid.lemma_with_bytes(seg.start_va as int, seg.data@, 0);
        }
        let stored = self.write_bytes(seg.start_va, &seg.data);
        assert(stored);
        true
    }

    /// Builds the address space of a program. Returns it with the address of
    /// the top of the user stack and the entry point; nothing if the image
    /// is malformed.
    pub fn from_image(token: usize, image: &ProgramImage) -> (built: Option<(Self, usize, usize)>)
        ensures
            match built {
                Some((ms, stack_top, entry)) => {
                    &&& ms.wf()
                    &&& image_space(token, segment_views(image.segments@)) == Some(ms@)
                    &&& stack_top == user_stack_base(segment_views(image.segments@))
                        + USER_STACK_SIZE
                    &&& entry == image.entry
                },
                None => image_space(token, segment_views(image.segments@)) is None,
            },
    {
        let mut ms = MemorySet::new_bare(token);
        let top_page = floor_page(TRAMPOLINE);
        assert(top_page == vpn_limit() - 1);
        assert(!ms@.overlaps(top_page as int, top_page + 1));
        ms.push(MapArea::new_identical(top_page, top_page + 1, PERM_R | PERM_X));
        assert(ms@.areas =~= seq![trampoline_area()]);
        let n = image.segments.len();
        let mut end_page: usize = 0;
        let mut i: usize = 0;
        let ghost segs = segment_views(image.segments@);
        assert(segs.take(0) =~= Seq::<SegmentView>::empty());
        let ghost base = ms@;
        while i < n
            invariant
                n == image.segments@.len(),
                i <= n,
                ms.wf(),
                ms@.token == token,
                base == (MemorySetView { token, areas: seq![trampoline_area()] }),
                segs == segment_views(image.segments@),
                with_segments(base, segs.take(i as int)) == Some(ms@),
                end_page == image_end(segs.take(i as int)),
                end_page <= vpn_limit(),
            decreases n - i,
        {
            let seg = &image.segments[i];
            proof {
                assert(segs.take(i + 1).drop_last() =~= segs.take(i as int));
                assert(segs.take(i + 1).last() == seg@);
            }
            if !ms.load_segment(seg) {
                proof {
                    lemma_segments_fail_for_good(base, segs, i as int + 1);
                }
                return None;
            }
            let end = ceil_page(seg.start_va + seg.mem_size);
            if end > end_page {
                end_page = end;
            }
            i = i + 1;
        }
        assert(segs.take(n as int) =~= segs);
        let trap_page = floor_page(TRAP_CONTEXT);
        let stack_pages = USER_STACK_SIZE / PAGE_SIZE;
        if end_page >= trap_page || trap_page - end_page - 1 < stack_pages {
            return None;
        }
        let bottom = end_page + 1;
        let top = bottom + stack_pages;
        if ms.overlaps(bottom, top) || ms.overlaps(trap_page, trap_page + 1) {
            return None;
        }
        assert(bottom * PAGE_SIZE <= usize::MAX) by {
            assert(bottom < vpn_limit() - 1);
        }
        assert(top * PAGE_SIZE <= usize::MAX) by {
            assert(top < vpn_limit());
        }
        ms.push(MapArea::new_framed(bottom, top, PERM_R | PERM_W | PERM_U));
        ms.push(MapArea::new_framed(trap_page, trap_page + 1, PERM_R | PERM_W));
        Some((ms, top * PAGE_SIZE, image.entry))
    }
}

/// Once a segment fails to fit, no later segment mends it.
proof fn lemma_segments_fail_for_good(v: MemorySetView, segs: Seq<SegmentView>, k: int)
    requires
        0 <= k <= segs.len(),
        with_segments(v, segs.take(k)) is None,
    ensures
        with_segments(v, segs) is None,
    decreases segs.len() - k,
{
    if k < segs.len() {
        assert(segs.take(k + 1).drop_last() =~= segs.take(k));
        lemma_segments_fail_for_good(v, segs, k + 1);
    } else {
        assert(segs.take(k) =~= segs);
    }
}

} // verus!
