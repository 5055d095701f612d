//! An immutable, borrowed-byte-slice container of serialized themes.
//!
//! Container layout: `[count: u16 BE] [count x u32 BE offsets] [records]`,
//! each offset relative to the start of the record section, each record as
//! in [`crate::theme`].  Construction parses only the header and the offset
//! table; records are parsed lazily, a name and flag at a time.

use crate::error::ThemeError;
use crate::scheme::{ColorScheme, colors_of_bytes, spec_canonical, scheme_matches};
use crate::theme::{Theme, theme_wf, spec_theme_bytes};
use crate::unicode::str_from_utf8;
use vstd::prelude::*;
use vstd::slice::slice_subrange;
use vstd::string::StringSliceAdditionalSpecFns;
use vstd::utf8::{valid_utf8, encode_utf8, encode_utf8_decode_utf8};

verus! {

/// A record is well-formed when it holds its declared name, the flag byte
/// and the 66 palette bytes, and the name bytes are valid UTF-8.
pub open spec fn rec_ok(b: Seq<u8>) -> bool {
    &&& b.len() >= 2
    &&& b.len() >= 68 + b[0]
    &&& valid_utf8(b.subrange(1, 1 + b[0] as int))
}

/// The name bytes of a record.
pub open spec fn rec_name_bytes(b: Seq<u8>) -> Seq<u8> {
    b.subrange(1, 1 + b[0] as int)
}

/// The light flag of a record: any nonzero flag byte counts as light.
pub open spec fn rec_light(b: Seq<u8>) -> bool {
    b[1 + b[0] as int] != 0
}

/// The 66 palette bytes of a record.
pub open spec fn rec_scheme_bytes(b: Seq<u8>) -> Seq<u8> {
    b.subrange(2 + b[0] as int, 68 + b[0] as int)
}

/// Lightweight view of one serialized theme: the name and flag are parsed,
/// the palette bytes are referenced in place and decoded only on demand.
#[derive(Clone, Debug)]
pub struct LazyTheme<'a> {
    pub name: &'a str,
    pub is_light: bool,
    pub color_scheme_bytes: &'a [u8],
}

/// `lt` is the lazy view of the record at the front of `b`.
pub open spec fn lazy_matches(lt: LazyTheme, b: Seq<u8>) -> bool {
    &&& rec_ok(b)
    &&& encode_utf8(lt.name@) == rec_name_bytes(b)
    &&& lt.is_light == rec_light(b)
    &&& lt.color_scheme_bytes@ == rec_scheme_bytes(b)
}

impl<'a> LazyTheme<'a> {
    /// Parses the name and flag of the record at the front of `b`, keeping
    /// a reference to the palette bytes.  Succeeds exactly on a well-formed
    /// record.
    pub fn from_bytes(b: &'a [u8]) -> (r: Result<LazyTheme<'a>, ThemeError>)
        ensures
            r is Ok <==> rec_ok(b@),
            r matches Ok(lt) ==> lazy_matches(lt, b@),
            b@.len() < 2 ==> (r matches Err(e) && e == ThemeError::TooShort),
            b@.len() >= 2 && b@.len() < 68 + b@[0] ==> (r matches Err(e) && e
                == ThemeError::InvalidLength),
            b@.len() >= 2 && b@.len() >= 68 + b@[0] && !valid_utf8(
                b@.subrange(1, 1 + b@[0] as int),
            ) ==> (r matches Err(e) && e == ThemeError::InvalidUtf8),
    {
        if b.len() < 2 {
            return Err(ThemeError::TooShort);
        }
        let name_size = b[0] as usize;
        if b.len() < 68 + name_size {
            return Err(ThemeError::InvalidLength);
        }
        let name_bytes = slice_subrange(b, 1, 1 + name_size);
        let name = match str_from_utf8(name_bytes) {
            Some(st) => st,
            None => {
                return Err(ThemeError::InvalidUtf8);
            },
        };
        let is_light = b[1 + name_size] != 0;
        let color_scheme_bytes = slice_subrange(b, 2 + name_size, 68 + name_size);
        Ok(LazyTheme { name, is_light, color_scheme_bytes })
    }

    /// Materializes the full theme, deriving the scheme from the 22 stored
    /// colors.
    pub fn into_theme(&self) -> (t: Theme)
        requires
            self.color_scheme_bytes@.len() == 66,
        ensures
            t.name@ == self.name@,
            t.is_light == self.is_light,
            scheme_matches(t.colors, colors_of_bytes(self.color_scheme_bytes@)),
            spec_canonical(t.colors) == colors_of_bytes(self.color_scheme_bytes@),
    {
        Theme {
            name: self.name.to_owned(),
            is_light: self.is_light,
            colors: ColorScheme::from_bytes(self.color_scheme_bytes),
        }
    }
}

/// The light/dark predicate of the collection queries: unconstrained,
/// light-only, or dark-only.
#[derive(Default, Clone, Debug, PartialEq, Eq, Structural)]
pub enum LazyThemeFilter {
    /// Every theme passes.
    #[default]
    All,
    /// Only themes classified light pass.
    Light,
    /// Only themes classified dark pass.
    Dark,
}

/// Whether a theme with the given flag passes the filter.
pub open spec fn filter_pass(f: LazyThemeFilter, is_light: bool) -> bool {
    match f {
        LazyThemeFilter::All => true,
        LazyThemeFilter::Light => is_light,
        LazyThemeFilter::Dark => !is_light,
    }
}

/// The filter that an optional filter argument stands for.
pub open spec fn eff_filter(f: Option<&LazyThemeFilter>) -> LazyThemeFilter {
    match f {
        Some(g) => *g,
        None => LazyThemeFilter::All,
    }
}

impl LazyThemeFilter {
    /// True of the unconstrained filter.
    pub fn is_none(&self) -> (r: bool)
        ensures
            r == (*self is All),
    {
        match self {
            LazyThemeFilter::All => true,
            _ => false,
        }
    }

    /// Applies the predicate to one light flag.
    pub fn matches(&self, is_light: bool) -> (r: bool)
        ensures
            r == filter_pass(*self, is_light),
    {
        match self {
            LazyThemeFilter::All => true,
            LazyThemeFilter::Light => is_light,
            LazyThemeFilter::Dark => !is_light,
        }
    }
}

/// The big-endian 16-bit value at the front of `b`.
pub open spec fn be16_at(b: Seq<u8>, j: int) -> int {
    b[j] * 256 + b[j + 1]
}

/// The big-endian 32-bit value at `j`.
pub open spec fn be32_at(b: Seq<u8>, j: int) -> int {
    b[j] * 16777216 + b[j + 1] * 65536 + b[j + 2] * 256 + b[j + 3]
}

/// Collection of serialized themes with lazy access, borrowing the backing
/// buffer; only the offset table is materialized.
#[derive(Clone)]
pub struct Collection<'a> {
    pub bytes: &'a [u8],
    pub offsets: Vec<u32>,
    pub count: u16,
    pub themes_start: usize,
}

/// The collection faithfully mirrors its buffer: the count is the leading
/// 16-bit value, the buffer covers the offset table, and the table entries
/// are the stored 32-bit offsets.
pub open spec fn col_wf(c: Collection) -> bool {
    &&& c.count as int == be16_at(c.bytes@, 0)
    &&& c.bytes@.len() >= 2 + 4 * c.count
    &&& c.themes_start == 2 + 4 * c.count
    &&& c.offsets@.len() == c.count as int
    &&& forall|i: int|
        0 <= i < c.count ==> c.offsets@[i] as int == be32_at(c.bytes@, 2 + 4 * i)
}

/// Where the record of index `i` starts in the buffer.
pub open spec fn rec_start(c: Collection, i: int) -> int {
    c.themes_start + c.offsets@[i]
}

/// The buffer from the start of record `i` on.
pub open spec fn rec_bytes_at(c: Collection, i: int) -> Seq<u8> {
    c.bytes@.skip(rec_start(c, i))
}

/// Index `i` yields an item: it is in range, its offset lands inside the
/// buffer, and a well-formed record lies there.
pub open spec fn get_ok(c: Collection, i: int) -> bool {
    &&& 0 <= i < c.count
    &&& rec_start(c, i) <= c.bytes@.len()
    &&& rec_ok(rec_bytes_at(c, i))
}

impl<'a> Collection<'a> {
    /// Parses the count and the offset table.  The buffer must cover both;
    /// record payloads are not touched.
    pub fn new(bytes: &'a [u8]) -> (c: Collection<'a>)
        requires
            bytes@.len() >= 2,
            bytes@.len() >= 2 + 4 * be16_at(bytes@, 0),
        ensures
            col_wf(c),
            c.bytes@ == bytes@,
            c.count as int == be16_at(bytes@, 0),
    {
        let count = (bytes[0] as u16) * 256 + (bytes[1] as u16);
        let n = count as usize;
        let blen = bytes.len();
        let mut offsets: Vec<u32> = Vec::new();
        let mut i: usize = 0;
        while i < n
            invariant
                blen == bytes@.len(),
                bytes@.len() >= 2 + 4 * n,
                i <= n,
                offsets@.len() == i as int,
                forall|j: int| 0 <= j < i ==> offsets@[j] as int == be32_at(bytes@, 2 + 4 * j),
            decreases n - i,
        {
            proof {
                assert(2 + 4 * (i as int) + 4 <= 2 + 4 * (n as int)) by (nonlinear_arith)
                    requires
                        i < n,
                ;
            }
            let j = 2 + 4 * i;
            let o = (bytes[j] as u32) * 16777216 + (bytes[j + 1] as u32) * 65536 + (bytes[j
                + 2] as u32) * 256 + (bytes[j + 3] as u32);
            offsets.push(o);
            i += 1;
        }
        Collection { bytes, offsets, count, themes_start: 2 + 4 * n }
    }

    /// Random access through the offset table.  `None` when the index is
    /// out of range, the offset lands outside the buffer, or the record
    /// there is malformed.
    pub fn get(&'a self, index: usize) -> (r: Option<LazyTheme<'a>>)
        requires
            col_wf(*self),
        ensures
            r is Some <==> get_ok(*self, index as int),
            r matches Some(lt) ==> lazy_matches(lt, rec_bytes_at(*self, index as int)),
    {
        if index >= self.count as usize {
            return None;
        }
        let blen = self.bytes.len();
        let off = self.offsets[index] as usize;
        if off > usize::MAX - self.themes_start {
            return None;
        }
        let start = self.themes_start + off;
        if start > blen {
            return None;
        }
        let rec = slice_subrange(self.bytes, start, blen);
        proof {
            assert(rec@ =~= rec_bytes_at(*self, index as int));
        }
        match LazyTheme::from_bytes(rec) {
            Ok(lt) => Some(lt),
            Err(_) => None,
        }
    }

    /// A lazy iterator over the records, in stored order.
    pub fn iter(&'a self) -> (it: LazyThemeIter<'a>)
        ensures
            it.store == self,
            it.index == 0,
    {
        LazyThemeIter::new(self)
    }
}

/// The index of the first record in the live prefix, from `j` on, that
/// passes the filter and carries exactly the given name bytes.  The scan
/// stops at the first index that yields no item.
pub open spec fn find_match(
    c: Collection,
    name: Seq<u8>,
    f: LazyThemeFilter,
    j: int,
) -> Option<int>
    decreases c.count - j,
    when 0 <= j <= c.count
{
    if j >= c.count as int || !get_ok(c, j) {
        None
    } else if filter_pass(f, rec_light(rec_bytes_at(c, j))) && rec_name_bytes(rec_bytes_at(c, j))
        == name {
        Some(j)
    } else {
        find_match(c, name, f, j + 1)
    }
}

/// The name bytes and light flag of every record in the live prefix, from
/// `j` on, that passes the filter, in stored order.
pub open spec fn metas_from(c: Collection, f: LazyThemeFilter, j: int) -> Seq<(Seq<u8>, bool)>
    decreases c.count - j,
    when 0 <= j <= c.count
{
    if j >= c.count as int || !get_ok(c, j) {
        Seq::empty()
    } else {
        let light = rec_light(rec_bytes_at(c, j));
        let rest = metas_from(c, f, j + 1);
        if filter_pass(f, light) {
            seq![(rec_name_bytes(rec_bytes_at(c, j)), light)] + rest
        } else {
            rest
        }
    }
}

/// The filtered name list, as byte strings in stored order.
pub open spec fn names_from(c: Collection, f: LazyThemeFilter, j: int) -> Seq<Seq<u8>> {
    metas_from(c, f, j).map_values(|m: (Seq<u8>, bool)| m.0)
}

/// A cursor over a collection's records.  It stops, and stays stopped, at
/// the first index that yields no item.
#[derive(Clone)]
pub struct LazyThemeIter<'a> {
    pub store: &'a Collection<'a>,
    pub index: usize,
}

impl<'a> LazyThemeIter<'a> {
    /// A cursor at the first record.
    pub fn new(store: &'a Collection<'a>) -> (it: LazyThemeIter<'a>)
        ensures
            it.store == store,
            it.index == 0,
    {
        LazyThemeIter { store, index: 0 }
    }

    /// The next item: the record at the cursor if it yields one, else
    /// `None` without advancing.
    pub fn next(&mut self) -> (r: Option<LazyTheme<'a>>)
        requires
            col_wf(*old(self).store),
        ensures
            final(self).store == old(self).store,
            r is Some <==> get_ok(*old(self).store, old(self).index as int),
            r is Some ==> final(self).index == old(self).index + 1,
            r is None ==> final(self).index == old(self).index,
            r matches Some(lt) ==> lazy_matches(
                lt,
                rec_bytes_at(*old(self).store, old(self).index as int),
            ),
    {
        match self.store.get(self.index) {
            Some(lt) => {
                proof {
                    assert(self.index < self.store.count);
                }
                self.index += 1;
                Some(lt)
            },
            None => None,
        }
    }
}

/// Relies on `rand::random_range`: a uniformly random index below `n`,
/// drawn from the thread-local generator.  Nothing is assumed of the value
/// beyond its range.
#[verifier::external_body]
fn random_below(n: usize) -> (r: usize)
    requires
        n >= 1,
    ensures
        r < n,
{
    rand::random_range(0..n)
}

impl<'a> Collection<'a> {
    /// The first theme, in stored order, whose name is exactly `name` and
    /// which passes the filter.  The scan covers the live prefix: it stops
    /// at the first record that yields no item.
    pub fn by_name(&'a self, name: &str, filter: Option<&LazyThemeFilter>) -> (r: Option<
        LazyTheme<'a>,
    >)
        requires
            col_wf(*self),
        ensures
            r is Some <==> find_match(*self, encode_utf8(name@), eff_filter(filter), 0) is Some,
            r matches Some(lt) ==> {
                &&& find_match(*self, encode_utf8(name@), eff_filter(filter), 0) matches Some(i)
                &&& lazy_matches(lt, rec_bytes_at(*self, i))
            },
    {
        let ghost ef = eff_filter(filter);
        let ghost nm = encode_utf8(name@);
        let n = self.count as usize;
        let mut i: usize = 0;
        while i < n
            invariant
                col_wf(*self),
                n == self.count as int,
                i <= n,
                ef == eff_filter(filter),
                nm == encode_utf8(name@),
                find_match(*self, nm, ef, 0) == find_match(*self, nm, ef, i as int),
                forall|j: int| 0 <= j < i ==> get_ok(*self, j),
            decreases n - i,
        {
            match self.get(i) {
                Some(lt) => {
                    let pass = match filter {
                        Some(g) => g.matches(lt.is_light),
                        None => true,
                    };
                    if pass && crate::unicode::str_eq(lt.name, name) {
                        proof {
                            assert(encode_utf8(lt.name@) == nm);
                            assert(find_match(*self, nm, ef, i as int) == Some(i as int));
                        }
                        return Some(lt);
                    }
                    proof {
                        if rec_name_bytes(rec_bytes_at(*self, i as int)) == nm {
                            encode_utf8_decode_utf8(lt.name@);
                            encode_utf8_decode_utf8(name@);
                            assert(lt.name@ == name@);
                        }
                        assert(find_match(*self, nm, ef, i as int) == find_match(
                            *self,
                            nm,
                            ef,
                            i + 1,
                        ));
                    }
                },
                None => {
                    return None;
                },
            }
            i += 1;
        }
        None
    }

    /// The names of the filtered themes in the live prefix: in stored order,
    /// or sorted byte-lexicographically when `sort` is set.
    pub fn name_list(&'a self, filter: Option<&LazyThemeFilter>, sort: bool) -> (r: Vec<&'a str>)
        requires
            col_wf(*self),
        ensures
            crate::unicode::views_of(r@).to_multiset() == names_from(
                *self,
                eff_filter(filter),
                0,
            ).to_multiset(),
            !sort ==> crate::unicode::views_of(r@) == names_from(*self, eff_filter(filter), 0),
            sort ==> forall|x: int, y: int|
                0 <= x < y < r@.len() ==> crate::unicode::bytes_le(
                    #[trigger] r@[x].spec_bytes(),
                    #[trigger] r@[y].spec_bytes(),
                ),
    {
        let ghost ef = eff_filter(filter);
        let n = self.count as usize;
        let mut out: Vec<&'a str> = Vec::new();
        let mut i: usize = 0;
        proof {
            assert(crate::unicode::views_of(out@) =~= Seq::<Seq<u8>>::empty());
        }
        while i < n
            invariant
                col_wf(*self),
                n == self.count as int,
                i <= n,
                ef == eff_filter(filter),
                names_from(*self, ef, 0) == crate::unicode::views_of(out@) + names_from(
                    *self,
                    ef,
                    i as int,
                ),
                forall|j: int| 0 <= j < i ==> get_ok(*self, j),
            decreases n - i,
        {
            let ghost old_out = out@;
            match self.get(i) {
                Some(lt) => {
                    let pass = match filter {
                        Some(g) => g.matches(lt.is_light),
                        None => true,
                    };
                    if pass {
                        out.push(lt.name);
                        proof {
                            assert(crate::unicode::views_of(out@) =~= crate::unicode::views_of(
                                old_out,
                            ).push(lt.name.spec_bytes()));
                            assert(metas_from(*self, ef, i as int) == seq![
                                (
                                    rec_name_bytes(rec_bytes_at(*self, i as int)),
                                    rec_light(rec_bytes_at(*self, i as int)),
                                ),
                            ] + metas_from(*self, ef, i + 1));
                            assert(names_from(*self, ef, i as int) =~= seq![
                                lt.name.spec_bytes(),
                            ] + names_from(*self, ef, i + 1));
                            assert(names_from(*self, ef, 0) =~= crate::unicode::views_of(out@)
                                + names_from(*self, ef, i + 1));
                        }
                    } else {
                        proof {
                            assert(metas_from(*self, ef, i as int) == metas_from(*self, ef, i + 1));
                        }
                    }
                },
                None => {
                    proof {
                        assert(names_from(*self, ef, i as int) =~= Seq::<Seq<u8>>::empty());
                        assert(names_from(*self, ef, 0) =~= crate::unicode::views_of(out@));
                    }
                    if sort {
                        let sorted = crate::unicode::sorted_strs(out);
                        return sorted;
                    }
                    return out;
                },
            }
            i += 1;
        }
        proof {
            assert(names_from(*self, ef, n as int) =~= Seq::<Seq<u8>>::empty());
            assert(names_from(*self, ef, 0) =~= crate::unicode::views_of(out@));
        }
        if sort {
            let sorted = crate::unicode::sorted_strs(out);
            return sorted;
        }
        out
    }

    /// A random theme.  Without a filter an index is drawn directly and the
    /// record there is parsed; with a filter, one of the filtered themes of
    /// the live prefix is drawn uniformly.
    pub fn rand(&'a self, filter: Option<&LazyThemeFilter>) -> (r: Option<LazyTheme<'a>>)
        requires
            col_wf(*self),
        ensures
            r matches Some(lt) ==> exists|i: int|
                {
                    &&& #[trigger] get_ok(*self, i)
                    &&& filter_pass(eff_filter(filter), rec_light(rec_bytes_at(*self, i)))
                    &&& lazy_matches(lt, rec_bytes_at(*self, i))
                },
            !(eff_filter(filter) is All) ==> (r is Some <==> metas_from(
                *self,
                eff_filter(filter),
                0,
            ).len() > 0),
            eff_filter(filter) is All && self.count > 0 && (forall|i: int|
                0 <= i < self.count ==> #[trigger] get_ok(*self, i)) ==> r is Some,
    {
        let is_all = match filter {
            Some(g) => g.is_none(),
            None => true,
        };
        if is_all {
            if self.count == 0 {
                return None;
            }
            let i = random_below(self.count as usize);
            let r = self.get(i);
            proof {
                if r is Some {
                    assert(get_ok(*self, i as int));
                }
            }
            return r;
        }
        let ghost ef = eff_filter(filter);
        let n = self.count as usize;
        let mut hits: Vec<usize> = Vec::new();
        let mut i: usize = 0;
        while i < n
            invariant
                col_wf(*self),
                n == self.count as int,
                i <= n,
                ef == eff_filter(filter),
                hits@.len() == metas_from(*self, ef, 0).len() - metas_from(*self, ef, i as int).len(),
                metas_from(*self, ef, i as int).len() <= metas_from(*self, ef, 0).len(),
                forall|k: int|
                    0 <= k < hits@.len() ==> #[trigger] get_ok(*self, hits@[k] as int),
                forall|k: int|
                    0 <= k < hits@.len() ==> filter_pass(
                        ef,
                        rec_light(rec_bytes_at(*self, #[trigger] hits@[k] as int)),
                    ),
                forall|j: int| 0 <= j < i ==> get_ok(*self, j),
            decreases n - i,
        {
            match self.get(i) {
                Some(lt) => {
                    let pass = match filter {
                        Some(g) => g.matches(lt.is_light),
                        None => true,
                    };
                    if pass {
                        let ghost old_hits = hits@;
                        hits.push(i);
                        proof {
                            assert(metas_from(*self, ef, i as int) == seq![
                                (
                                    rec_name_bytes(rec_bytes_at(*self, i as int)),
                                    rec_light(rec_bytes_at(*self, i as int)),
                                ),
                            ] + metas_from(*self, ef, i + 1));
                            assert(get_ok(*self, i as int));
                            assert(filter_pass(ef, rec_light(rec_bytes_at(*self, i as int))));
                            assert forall|k: int|
                                0 <= k < hits@.len() implies get_ok(*self, hits@[k] as int)
                                    && filter_pass(
                                    ef,
                                    rec_light(rec_bytes_at(*self, hits@[k] as int)),
                                ) by {
                                if k < old_hits.len() {
                                    assert(hits@[k] == old_hits[k]);
                                    assert(get_ok(*self, old_hits[k] as int));
                                    assert(filter_pass(
                                        ef,
                                        rec_light(rec_bytes_at(*self, old_hits[k] as int)),
                                    ));
                                } else {
                                    assert(hits@[k] == i);
                                }
                            }
                        }
                    } else {
                        proof {
                            assert(metas_from(*self, ef, i as int) == metas_from(*self, ef, i + 1));
                        }
                    }
                },
                None => {
                    proof {
                        assert(metas_from(*self, ef, i as int).len() == 0);
                    }
                    if hits.len() == 0 {
                        return None;
                    }
                    let k = random_below(hits.len());
                    let idx = hits[k];
                    let r = self.get(idx);
                    proof {
                        assert(get_ok(*self, idx as int));
                    }
                    return r;
                },
            }
            i += 1;
        }
        proof {
            assert(metas_from(*self, ef, n as int).len() == 0);
        }
        if hits.len() == 0 {
            return None;
        }
        let k = random_below(hits.len());
        let idx = hits[k];
        let r = self.get(idx);
        proof {
            assert(get_ok(*self, idx as int));
        }
        r
    }
}


/// The byte offset of record `i` in the record section: the total size of
/// the records before it.
pub open spec fn offset_of(ts: Seq<Theme>, i: int) -> int
    decreases i,
{
    if i <= 0 {
        0
    } else {
        offset_of(ts, i - 1) + spec_theme_bytes(ts[i - 1]).len()
    }
}

/// The four big-endian bytes of a 32-bit value.
pub open spec fn be32_bytes(x: int) -> Seq<u8> {
    seq![
        ((x / 16777216) % 256) as u8,
        ((x / 65536) % 256) as u8,
        ((x / 256) % 256) as u8,
        (x % 256) as u8,
    ]
}

/// The offset table from entry `i` on.
pub open spec fn offsets_bytes(ts: Seq<Theme>, i: int) -> Seq<u8>
    decreases ts.len() - i,
    when 0 <= i <= ts.len()
{
    if i >= ts.len() {
        Seq::empty()
    } else {
        be32_bytes(offset_of(ts, i)) + offsets_bytes(ts, i + 1)
    }
}

/// The concatenated records from index `i` on.
pub open spec fn records_bytes(ts: Seq<Theme>, i: int) -> Seq<u8>
    decreases ts.len() - i,
    when 0 <= i <= ts.len()
{
    if i >= ts.len() {
        Seq::empty()
    } else {
        spec_theme_bytes(ts[i]) + records_bytes(ts, i + 1)
    }
}

/// The whole container: 16-bit count, offset table, records.
pub open spec fn spec_bundle(ts: Seq<Theme>) -> Seq<u8> {
    seq![((ts.len() as int / 256) % 256) as u8, ((ts.len() as int) % 256) as u8]
        + offsets_bytes(ts, 0) + records_bytes(ts, 0)
}

/// Every record of a well-formed theme takes at most 323 bytes, so offsets
/// stay small.
proof fn lemma_offset_bound(ts: Seq<Theme>, i: int)
    requires
        0 <= i <= ts.len(),
        forall|k: int| 0 <= k < ts.len() ==> theme_wf(#[trigger] ts[k]),
    ensures
        0 <= offset_of(ts, i) <= 323 * i,
    decreases i,
{
    if i > 0 {
        lemma_offset_bound(ts, i - 1);
        assert(spec_theme_bytes(ts[i - 1]).len() <= 323);
    }
}

/// Packs themes into the binary container: the big-endian 16-bit count,
/// one big-endian 32-bit offset per theme relative to the record section,
/// and the records themselves.
pub fn build_theme_bundle(themes: &Vec<Theme>) -> (out: Vec<u8>)
    requires
        themes@.len() <= 65535,
        forall|i: int| 0 <= i < themes@.len() ==> theme_wf(#[trigger] themes@[i]),
    ensures
        out@ == spec_bundle(themes@),
{
    let n = themes.len();
    let mut table: Vec<u8> = Vec::new();
    let mut off: u32 = 0;
    let mut i: usize = 0;
    proof {
        assert(offsets_bytes(themes@, 0) =~= table@ + offsets_bytes(themes@, 0));
    }
    while i < n
        invariant
            n == themes@.len(),
            n <= 65535,
            forall|k: int| 0 <= k < themes@.len() ==> theme_wf(#[trigger] themes@[k]),
            i <= n,
            off as int == offset_of(themes@, i as int),
            off <= 323 * i,
            offsets_bytes(themes@, 0) == table@ + offsets_bytes(themes@, i as int),
        decreases n - i,
    {
        let ghost old_table = table@;
        table.push((off / 16777216) as u8);
        table.push(((off / 65536) % 256) as u8);
        table.push(((off / 256) % 256) as u8);
        table.push((off % 256) as u8);
        proof {
            assert((off as int / 16777216) % 256 == off as int / 16777216);
            assert(table@ =~= old_table + be32_bytes(off as int));
            assert(offsets_bytes(themes@, i as int) == be32_bytes(offset_of(themes@, i as int))
                + offsets_bytes(themes@, i + 1));
            assert(offsets_bytes(themes@, 0) =~= table@ + offsets_bytes(themes@, i + 1));
            lemma_offset_bound(themes@, i + 1);
        }
        let sz = themes[i].size();
        off = off + (sz as u32);
        i += 1;
    }
    proof {
        assert(offsets_bytes(themes@, n as int) =~= Seq::<u8>::empty());
        assert(offsets_bytes(themes@, 0) =~= table@);
    }

    let mut records: Vec<u8> = Vec::new();
    let mut j: usize = 0;
    proof {
        assert(records_bytes(themes@, 0) =~= records@ + records_bytes(themes@, 0));
    }
    while j < n
        invariant
            n == themes@.len(),
            forall|k: int| 0 <= k < themes@.len() ==> theme_wf(#[trigger] themes@[k]),
            j <= n,
            records_bytes(themes@, 0) == records@ + records_bytes(themes@, j as int),
        decreases n - j,
    {
        let ghost old_records = records@;
        let mut rec = themes[j].to_bytes();
        records.append(&mut rec);
        proof {
            assert(records_bytes(themes@, j as int) == spec_theme_bytes(themes@[j as int])
                + records_bytes(themes@, j + 1));
            assert(records_bytes(themes@, 0) =~= records@ + records_bytes(themes@, j + 1));
        }
        j += 1;
    }
    proof {
        assert(records_bytes(themes@, n as int) =~= Seq::<u8>::empty());
        assert(records_bytes(themes@, 0) =~= records@);
    }

    let mut out: Vec<u8> = Vec::new();
    out.push((n / 256) as u8);
    out.push((n % 256) as u8);
    let mut table_tail = table;
    out.append(&mut table_tail);
    let mut records_tail = records;
    out.append(&mut records_tail);
    proof {
        assert(out@ =~= spec_bundle(themes@));
    }
    out
}

/// Random access and iteration agree: two lazy views of the same record
/// carry the same name, the same light flag and the same palette bytes.
/// The hypotheses are what [`Collection::get`] ensures of the item at `i`
/// and what the `i`-th successful [`LazyThemeIter::next`] ensures of its
/// item.
pub proof fn lemma_get_iter_agree(c: Collection, i: int, a: LazyTheme, b: LazyTheme)
    requires
        get_ok(c, i),
        lazy_matches(a, rec_bytes_at(c, i)),
        lazy_matches(b, rec_bytes_at(c, i)),
    ensures
        a.name@ == b.name@,
        a.is_light == b.is_light,
        a.color_scheme_bytes@ == b.color_scheme_bytes@,
{
    encode_utf8_decode_utf8(a.name@);
    encode_utf8_decode_utf8(b.name@);
}

/// Filtering is sound: every entry of the filtered meta list passes the
/// filter, and is an entry of the unfiltered list over the same records.
pub proof fn lemma_metas_filter(c: Collection, f: LazyThemeFilter, j: int)
    requires
        0 <= j <= c.count,
    ensures
        forall|k: int|
            0 <= k < metas_from(c, f, j).len() ==> filter_pass(
                f,
                #[trigger] metas_from(c, f, j)[k].1,
            ),
        forall|k: int|
            0 <= k < metas_from(c, f, j).len() ==> metas_from(c, LazyThemeFilter::All, j).contains(
                #[trigger] metas_from(c, f, j)[k],
            ),
    decreases c.count - j,
{
    if j >= c.count as int || !get_ok(c, j) {
    } else {
        lemma_metas_filter(c, f, j + 1);
        let light = rec_light(rec_bytes_at(c, j));
        let head = (rec_name_bytes(rec_bytes_at(c, j)), light);
        let all = metas_from(c, LazyThemeFilter::All, j);
        let all_rest = metas_from(c, LazyThemeFilter::All, j + 1);
        let rest = metas_from(c, f, j + 1);
        assert(all == seq![head] + all_rest);
        assert forall|k: int| 0 <= k < metas_from(c, f, j).len() implies metas_from(
            c,
            LazyThemeFilter::All,
            j,
        ).contains(#[trigger] metas_from(c, f, j)[k]) by {
            let me = metas_from(c, f, j);
            if filter_pass(f, light) {
                if k == 0 {
                    assert(all[0] == head);
                } else {
                    assert(me[k] == rest[k - 1]);
                    let w = choose|w: int| 0 <= w < all_rest.len() && all_rest[w] == rest[k - 1];
                    assert(all[w + 1] == rest[k - 1]);
                }
            } else {
                assert(me[k] == rest[k]);
                let w = choose|w: int| 0 <= w < all_rest.len() && all_rest[w] == rest[k];
                assert(all[w + 1] == rest[k]);
            }
        }
    }
}

/// Every name of the filtered name list appears in the unfiltered list.
pub proof fn lemma_names_filter_subset(c: Collection, f: LazyThemeFilter, j: int)
    requires
        0 <= j <= c.count,
    ensures
        forall|k: int|
            0 <= k < names_from(c, f, j).len() ==> names_from(c, LazyThemeFilter::All, j).contains(
                #[trigger] names_from(c, f, j)[k],
            ),
{
    lemma_metas_filter(c, f, j);
    assert forall|k: int| 0 <= k < names_from(c, f, j).len() implies names_from(
        c,
        LazyThemeFilter::All,
        j,
    ).contains(#[trigger] names_from(c, f, j)[k]) by {
        let me = metas_from(c, f, j);
        let all = metas_from(c, LazyThemeFilter::All, j);
        assert(all.contains(me[k]));
        let w = choose|w: int| 0 <= w < all.len() && all[w] == me[k];
        assert(names_from(c, LazyThemeFilter::All, j)[w] == me[k].0);
        assert(names_from(c, f, j)[k] == me[k].0);
    }
}


/// A found index is a live record that passes the filter and carries the
/// name.
proof fn lemma_find_match_props(c: Collection, name: Seq<u8>, f: LazyThemeFilter, j: int)
    requires
        0 <= j <= c.count,
    ensures
        find_match(c, name, f, j) matches Some(i) ==> {
            &&& j <= i < c.count
            &&& get_ok(c, i)
            &&& filter_pass(f, rec_light(rec_bytes_at(c, i)))
            &&& rec_name_bytes(rec_bytes_at(c, i)) == name
        },
    decreases c.count - j,
{
    if j < c.count as int && get_ok(c, j) {
        if !(filter_pass(f, rec_light(rec_bytes_at(c, j))) && rec_name_bytes(rec_bytes_at(c, j))
            == name) {
            lemma_find_match_props(c, name, f, j + 1);
        }
    }
}

/// Every name of the filtered list is found by the by-name scan.
proof fn lemma_names_complete(c: Collection, f: LazyThemeFilter, name: Seq<u8>, j: int)
    requires
        0 <= j <= c.count,
        names_from(c, f, j).contains(name),
    ensures
        find_match(c, name, f, j) is Some,
    decreases c.count - j,
{
    let metas = metas_from(c, f, j);
    if j >= c.count as int || !get_ok(c, j) {
        assert(names_from(c, f, j).len() == 0);
    } else {
        let light = rec_light(rec_bytes_at(c, j));
        let head = (rec_name_bytes(rec_bytes_at(c, j)), light);
        let rest = metas_from(c, f, j + 1);
        if filter_pass(f, light) {
            if rec_name_bytes(rec_bytes_at(c, j)) == name {
            } else {
                assert(metas == seq![head] + rest);
                let k = choose|k: int|
                    0 <= k < names_from(c, f, j).len() && names_from(c, f, j)[k] == name;
                assert(metas[k].0 == name);
                assert(k > 0);
                assert(rest[k - 1] == metas[k]);
                assert(names_from(c, f, j + 1)[k - 1] == name);
                lemma_names_complete(c, f, name, j + 1);
            }
        } else {
            assert(metas == rest);
            let k = choose|k: int|
                0 <= k < names_from(c, f, j).len() && names_from(c, f, j)[k] == name;
            assert(names_from(c, f, j + 1)[k] == name);
            lemma_names_complete(c, f, name, j + 1);
        }
    }
}

impl<'a> Collection<'a> {
    /// The theme whose name best matches the query fuzzily, among the
    /// filtered themes of the live prefix.  A non-empty filtered list
    /// always yields a theme; a query over 512 bytes yields none.
    pub fn fuzzy_search(&'a self, query: &str, filter: Option<&LazyThemeFilter>) -> (r: Option<
        LazyTheme<'a>,
    >)
        requires
            col_wf(*self),
        ensures
            query.spec_bytes().len() > 512 ==> r is None,
            query.spec_bytes().len() <= 512 ==> (r is Some <==> names_from(
                *self,
                eff_filter(filter),
                0,
            ).len() > 0),
            r matches Some(lt) ==> exists|i: int|
                {
                    &&& #[trigger] get_ok(*self, i)
                    &&& filter_pass(eff_filter(filter), rec_light(rec_bytes_at(*self, i)))
                    &&& lazy_matches(lt, rec_bytes_at(*self, i))
                },
            r matches Some(lt) ==> {
                let nms = names_from(*self, eff_filter(filter), 0);
                let b = crate::fuzzy::best_of(
                    nms,
                    crate::fuzzy::norm_bytes(query.spec_bytes()),
                    nms.len() as int,
                );
                &&& b matches Some(p)
                &&& encode_utf8(lt.name@) == nms[b->0]
            },
    {
        let ghost ef = eff_filter(filter);
        let names = self.name_list(filter, false);
        match crate::fuzzy::fuzzy_search(names.as_slice(), query) {
            Some(best) => {
                proof {
                    let views = crate::unicode::views_of(names@);
                    let qn = crate::fuzzy::norm_bytes(query.spec_bytes());
                    let b = crate::fuzzy::best_of(views, qn, names@.len() as int);
                    assert(best.spec_bytes() == views[b->0]);
                    assert(names_from(*self, ef, 0).contains(best.spec_bytes()));
                    lemma_names_complete(*self, ef, best.spec_bytes(), 0);
                    lemma_find_match_props(*self, best.spec_bytes(), ef, 0);
                }
                let r = self.by_name(best, filter);
                proof {
                    let i = find_match(*self, best.spec_bytes(), ef, 0)->0;
                    if r is Some {
                        assert(get_ok(*self, i));
                    }
                }
                r
            },
            None => None,
        }
    }
}


} // verus!
