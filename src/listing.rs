//! Validation and aggregation of the pages that a paginated listing returns.
use vstd::prelude::*;

verus! {

/// One object of a partition: its key, its size in bytes, and the store's
/// last-modified stamp as text.
pub struct ObjectInfo {
    pub key: String,
    pub size: usize,
    pub timestamp: String,
}

/// A "directory" grouping that the store reports when a delimiter is used.
pub struct CommonPrefixInfo {
    pub prefix: String,
}

/// An object descriptor as a page hands it over: each field may be absent.
pub struct RawObject {
    pub key: Option<String>,
    pub size: Option<i64>,
    pub last_modified: Option<String>,
}

/// A common-prefix descriptor as a page hands it over.
pub struct RawCommonPrefix {
    pub prefix: Option<String>,
}

/// One page of a listing response.
pub struct RawPage {
    pub contents: Vec<RawObject>,
    pub common_prefixes: Vec<RawCommonPrefix>,
}

/// Why a partition's listing could not be completed.
#[derive(Debug, Clone, Copy, PartialEq, Eq, Structural)]
pub enum ListError {
    MissingKey,
    /// The key is present but empty.
    EmptyKey,
    MissingSize,
    /// The size is negative or exceeds what `usize` holds.
    InvalidSize,
    MissingTimestamp,
    /// The timestamp is present but empty.
    EmptyTimestamp,
    MissingPrefix,
}

/// The mathematical value of an object record.
pub type ObjectView = (Seq<char>, nat, Seq<char>);

impl ObjectInfo {
    pub open spec fn view(&self) -> ObjectView {
        (self.key@, self.size as nat, self.timestamp@)
    }
}

impl CommonPrefixInfo {
    pub open spec fn view(&self) -> Seq<char> {
        self.prefix@
    }
}

/// The error that a raw object gives, if any, checking its fields in order.
pub open spec fn object_error(o: RawObject) -> Option<ListError> {
    if o.key.is_none() {
        Some(ListError::MissingKey)
    } else if o.key.unwrap()@.len() == 0 {
        Some(ListError::EmptyKey)
    } else if o.size.is_none() {
        Some(ListError::MissingSize)
    } else if o.size.unwrap() < 0 || o.size.unwrap() > usize::MAX {
        Some(ListError::InvalidSize)
    } else if o.last_modified.is_none() {
        Some(ListError::MissingTimestamp)
    } else if o.last_modified.unwrap()@.len() == 0 {
        Some(ListError::EmptyTimestamp)
    } else {
        None
    }
}

/// The record a valid raw object stands for.
pub open spec fn object_record(o: RawObject) -> ObjectView {
    (o.key.unwrap()@, o.size.unwrap() as nat, o.last_modified.unwrap()@)
}

/// The first error among `objs`, if any.
pub open spec fn first_object_error(objs: Seq<RawObject>) -> Option<ListError>
    decreases objs.len(),
{
    if objs.len() == 0 {
        None
    } else if object_error(objs[0]).is_some() {
        object_error(objs[0])
    } else {
        first_object_error(objs.drop_first())
    }
}

/// The first missing prefix among `cps`, if any.
pub open spec fn first_prefix_error(cps: Seq<RawCommonPrefix>) -> Option<ListError>
    decreases cps.len(),
{
    if cps.len() == 0 {
        None
    } else if cps[0].prefix.is_none() {
        Some(ListError::MissingPrefix)
    } else {
        first_prefix_error(cps.drop_first())
    }
}

/// The error of a page: its objects are checked before its common prefixes.
pub open spec fn page_error(p: RawPage) -> Option<ListError> {
    if first_object_error(p.contents@).is_some() {
        first_object_error(p.contents@)
    } else {
        first_prefix_error(p.common_prefixes@)
    }
}

/// The records of a page, in the page's order.
pub open spec fn page_objects(p: RawPage) -> Seq<ObjectView> {
    p.contents@.map_values(|o: RawObject| object_record(o))
}

/// The common prefixes of a page, in the page's order.
pub open spec fn page_prefixes(p: RawPage) -> Seq<Seq<char>> {
    p.common_prefixes@.map_values(|c: RawCommonPrefix| c.prefix.unwrap()@)
}

/// The first error among a sequence of pages, if any.
pub open spec fn pages_error(pages: Seq<RawPage>) -> Option<ListError>
    decreases pages.len(),
{
    if pages.len() == 0 {
        None
    } else if page_error(pages[0]).is_some() {
        page_error(pages[0])
    } else {
        pages_error(pages.drop_first())
    }
}

/// The records of all pages, concatenated in page order.
pub open spec fn pages_objects(pages: Seq<RawPage>) -> Seq<ObjectView>
    decreases pages.len(),
{
    if pages.len() == 0 {
        Seq::empty()
    } else {
        pages_objects(pages.drop_last()) + page_objects(pages.last())
    }
}

/// The common prefixes of all pages, concatenated in page order.
pub open spec fn pages_prefixes(pages: Seq<RawPage>) -> Seq<Seq<char>>
    decreases pages.len(),
{
    if pages.len() == 0 {
        Seq::empty()
    } else {
        pages_prefixes(pages.drop_last()) + page_prefixes(pages.last())
    }
}

pub open spec fn objects_view(v: Seq<ObjectInfo>) -> Seq<ObjectView> {
    v.map_values(|o: ObjectInfo| o@)
}

pub open spec fn prefixes_view(v: Seq<CommonPrefixInfo>) -> Seq<Seq<char>> {
    v.map_values(|c: CommonPrefixInfo| c@)
}

/// Every record has a non-empty key and a non-empty timestamp.
pub open spec fn records_well_formed(s: Seq<ObjectView>) -> bool {
    forall|i: int| 0 <= i < s.len() ==> (#[trigger] s[i]).0.len() > 0 && s[i].2.len() > 0
}

proof fn lemma_well_formed_concat(a: Seq<ObjectView>, b: Seq<ObjectView>)
    requires
        records_well_formed(a),
        records_well_formed(b),
    ensures
        records_well_formed(a + b),
{
    assert forall|i: int| 0 <= i < (a + b).len() implies (#[trigger] (a + b)[i]).0.len() > 0 && (a
        + b)[i].2.len() > 0 by {
        if i < a.len() {
            assert((a + b)[i] == a[i]);
        } else {
            assert((a + b)[i] == b[i - a.len()]);
        }
    }
}

/// The aggregate of a partition's pages, filled one page at a time.
pub struct Listing {
    pub objects: Vec<ObjectInfo>,
    pub common_prefixes: Vec<CommonPrefixInfo>,
}

impl Listing {
    /// An empty listing, before the first page.
    pub fn new() -> (r: Listing)
        ensures
            r.objects@.len() == 0,
            r.common_prefixes@.len() == 0,
    {
        Listing { objects: Vec::new(), common_prefixes: Vec::new() }
    }

    /// Validates a page and, if every field is present, appends its objects
    /// and common prefixes in the page's order. On an error the listing is
    /// left as it was.
    pub fn add_page(&mut self, page: &RawPage) -> (r: Result<(), ListError>)
        ensures
            r.is_err() <==> page_error(*page).is_some(),
            r.is_err() ==> r == Err::<(), ListError>(page_error(*page).unwrap()),
            r.is_err() ==> objects_view(final(self).objects@) == objects_view(old(self).objects@),
            r.is_err() ==> prefixes_view(final(self).common_prefixes@) == prefixes_view(
                old(self).common_prefixes@,
            ),
            r.is_ok() ==> objects_view(final(self).objects@) == objects_view(old(self).objects@)
                + page_objects(*page),
            r.is_ok() ==> records_well_formed(page_objects(*page)),
            r.is_ok() ==> prefixes_view(final(self).common_prefixes@) == prefixes_view(
                old(self).common_prefixes@,
            ) + page_prefixes(*page),
    {
        let mut objs: Vec<ObjectInfo> = Vec::new();
        let mut i: usize = 0;
        assert(page.contents@.subrange(0, page.contents@.len() as int) =~= page.contents@);
        while i < page.contents.len()
            invariant
                i <= page.contents@.len(),
                page.contents@.subrange(0, page.contents@.len() as int) == page.contents@,
                first_object_error(page.contents@) == first_object_error(
                    page.contents@.subrange(i as int, page.contents@.len() as int),
                ),
                records_well_formed(objects_view(objs@)),
                objects_view(objs@) == page.contents@.subrange(0, i as int).map_values(
                    |o: RawObject| object_record(o),
                ),
            decreases page.contents@.len() - i,
        {
            let o = &page.contents[i];
            proof {
                let rest = page.contents@.subrange(i as int, page.contents@.len() as int);
                assert(rest[0] == *o);
                assert(rest.drop_first() =~= page.contents@.subrange(i + 1, page.contents@.len() as int));
            }
            let key = match &o.key {
                Some(k) => {
                    if k.as_str().is_empty() {
                        return Err(ListError::EmptyKey);
                    }
                    k.clone()
                },
                None => { return Err(ListError::MissingKey); },
            };
            let size: usize = match o.size {
                Some(s) => {
                    if s < 0 || s as u64 > usize::MAX as u64 {
                        return Err(ListError::InvalidSize);
                    }
                    s as u64 as usize
                },
                None => { return Err(ListError::MissingSize); },
            };
            let timestamp = match &o.last_modified {
                Some(t) => {
                    if t.as_str().is_empty() {
                        return Err(ListError::EmptyTimestamp);
                    }
                    t.clone()
                },
                None => { return Err(ListError::MissingTimestamp); },
            };
            let ghost prev = objs@;
            let rec = ObjectInfo { key, size, timestamp };
            assert(rec@ == object_record(*o));
            objs.push(rec);
            proof {
                assert(objects_view(objs@) =~= objects_view(prev).push(rec@));
                assert(records_well_formed(objects_view(objs@))) by {
                    let v = objects_view(objs@);
                    assert forall|j: int| 0 <= j < v.len() implies (#[trigger] v[j]).0.len() > 0
                        && v[j].2.len() > 0 by {
                        if j < v.len() - 1 {
                            assert(v[j] == objects_view(prev)[j]);
                        }
                    }
                }
                assert(page.contents@.subrange(0, i + 1) =~= page.contents@.subrange(0, i as int).push(*o));
                assert(objects_view(objs@) =~= page.contents@.subrange(0, i + 1).map_values(
                    |o: RawObject| object_record(o),
                ));
            }
            i = i + 1;
        }
        let mut cps: Vec<CommonPrefixInfo> = Vec::new();
        let mut k: usize = 0;
        assert(page.common_prefixes@.subrange(0, page.common_prefixes@.len() as int)
            =~= page.common_prefixes@);
        while k < page.common_prefixes.len()
            invariant
                k <= page.common_prefixes@.len(),
                page.common_prefixes@.subrange(0, page.common_prefixes@.len() as int)
                    == page.common_prefixes@,
                first_object_error(page.contents@).is_none(),
                objects_view(objs@) == page_objects(*page),
                records_well_formed(objects_view(objs@)),
                first_prefix_error(page.common_prefixes@) == first_prefix_error(
                    page.common_prefixes@.subrange(k as int, page.common_prefixes@.len() as int),
                ),
                prefixes_view(cps@) == page.common_prefixes@.subrange(0, k as int).map_values(
                    |c: RawCommonPrefix| c.prefix.unwrap()@,
                ),
            decreases page.common_prefixes@.len() - k,
        {
            let c = &page.common_prefixes[k];
            proof {
                let rest = page.common_prefixes@.subrange(k as int, page.common_prefixes@.len() as int);
                assert(rest[0] == *c);
                assert(rest.drop_first() =~= page.common_prefixes@.subrange(
                    k + 1,
                    page.common_prefixes@.len() as int,
                ));
            }
            let prefix = match &c.prefix {
                Some(p) => p.clone(),
                None => { return Err(ListError::MissingPrefix); },
            };
            let ghost prev = cps@;
            let cp = CommonPrefixInfo { prefix };
            cps.push(cp);
            proof {
                assert(prefixes_view(cps@) =~= prefixes_view(prev).push(cp@));
                assert(page.common_prefixes@.subrange(0, k + 1) =~= page.common_prefixes@.subrange(
                    0,
                    k as int,
                ).push(*c));
                assert(prefixes_view(cps@) =~= page.common_prefixes@.subrange(0, k + 1).map_values(
                    |c: RawCommonPrefix| c.prefix.unwrap()@,
                ));
            }
            k = k + 1;
        }
        let ghost old_objs = objects_view(self.objects@);
        let ghost old_cps = prefixes_view(self.common_prefixes@);
        let ghost new_objs = objects_view(objs@);
        let ghost new_cps = prefixes_view(cps@);
        self.objects.append(&mut objs);
        self.common_prefixes.append(&mut cps);
        proof {
            assert(objects_view(self.objects@) =~= old_objs + new_objs);
            assert(prefixes_view(self.common_prefixes@) =~= old_cps + new_cps);
        }
        Ok(())
    }
}

/// Aggregates a partition's pages, in order, into one listing. Stops at the
/// first page with a missing or invalid field and returns its error.
pub fn list_pages(pages: &Vec<RawPage>) -> (r: Result<Listing, ListError>)
    ensures
        r.is_err() <==> pages_error(pages@).is_some(),
        r.is_err() ==> r->Err_0 == pages_error(pages@).unwrap(),
        r.is_ok() ==> objects_view(r->Ok_0.objects@) == pages_objects(pages@),
        r.is_ok() ==> prefixes_view(r->Ok_0.common_prefixes@) == pages_prefixes(pages@),
        r.is_ok() ==> records_well_formed(objects_view(r->Ok_0.objects@)),
{
    let mut listing = Listing::new();
    let mut i: usize = 0;
    assert(objects_view(listing.objects@) =~= Seq::empty());
    assert(prefixes_view(listing.common_prefixes@) =~= Seq::empty());
    assert(pages@.subrange(0, pages@.len() as int) =~= pages@);
    while i < pages.len()
        invariant
            i <= pages@.len(),
            pages_error(pages@) == pages_error(pages@.subrange(i as int, pages@.len() as int)),
            pages_error(pages@.subrange(0, i as int)).is_none() ==> pages_error(pages@)
                == pages_error(pages@.subrange(i as int, pages@.len() as int)),
            objects_view(listing.objects@) == pages_objects(pages@.subrange(0, i as int)),
            records_well_formed(objects_view(listing.objects@)),
            prefixes_view(listing.common_prefixes@) == pages_prefixes(pages@.subrange(0, i as int)),
        decreases pages@.len() - i,
    {
        proof {
            let rest = pages@.subrange(i as int, pages@.len() as int);
            assert(rest[0] == pages@[i as int]);
            assert(rest.drop_first() =~= pages@.subrange(i + 1, pages@.len() as int));
            let now = pages@.subrange(0, i + 1);
            assert(now.drop_last() =~= pages@.subrange(0, i as int));
            assert(now.last() == pages@[i as int]);
        }
        let ghost before = objects_view(listing.objects@);
        match listing.add_page(&pages[i]) {
            Err(e) => { return Err(e); },
            Ok(()) => {
                proof {
                    lemma_well_formed_concat(before, page_objects(pages@[i as int]));
                }
            },
        }
        i = i + 1;
    }
    assert(pages@.subrange(i as int, pages@.len() as int) =~= Seq::<RawPage>::empty());
    Ok(listing)
}

} // verus!
