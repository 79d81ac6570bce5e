//! Large objects in pages: how they are cut, and which pages are taken.

use crate::hashing::{content_hash, hash_of};
use crate::ids::Id32;
use vstd::prelude::*;

verus! {

/// The protocol's limits on objects that are sent in pages.
#[derive(Clone, Copy, Debug)]
pub struct CatalogLimits {
    /// How many bytes a page has at most.
    pub page_bytes: usize,
    pub max_pages: u32,
    /// How many bytes an object has at most.
    pub max_bytes: usize,
}

/// Why an object is not sent or taken.
#[derive(Clone, Copy, Debug, PartialEq, Eq, Structural)]
pub enum PageError {
    FirstPage,
    Page,
    /// The whole object has another hash than it was announced with.
    Object,
    /// The object cannot be sent in pages.
    Size,
    /// The object is not certified.
    NotCertified,
    /// Something that was asked for was not had.
    Outside,
    /// What came was not what was asked for.
    OutOfOrder,
}

/// A page of so many bytes, from a place on.
pub open spec fn page(bytes: Seq<u8>, size: nat, index: nat) -> Seq<u8> {
    let start = index * size;
    let end = if start + size < bytes.len() {
        start + size
    } else {
        bytes.len()
    };
    bytes.subrange(start as int, end as int)
}

/// How many pages bytes make.
pub open spec fn page_count(length: nat, size: nat) -> nat {
    if size == 0 {
        0
    } else {
        ((length + size - 1) / size as int) as nat
    }
}

/// The first so many pages, one behind the other.
pub open spec fn joined(pages: Seq<Seq<u8>>) -> Seq<u8>
    decreases pages.len(),
{
    if pages.len() == 0 {
        Seq::empty()
    } else {
        joined(pages.drop_last()) + pages.last()
    }
}

/// All pages of bytes.
pub open spec fn pages_of(bytes: Seq<u8>, size: nat) -> Seq<Seq<u8>> {
    Seq::new(page_count(bytes.len(), size), |i: int| page(bytes, size, i as nat))
}

pub open spec fn page_views(pages: Seq<Vec<u8>>) -> Seq<Seq<u8>> {
    pages.map_values(|page: Vec<u8>| page@)
}

proof fn lemma_page_bounds(length: int, size: int, index: int)
    by (nonlinear_arith)
    requires
        length >= 0,
        size > 0,
        0 <= index < (length + size - 1) / size,
    ensures
        0 <= index * size < length,
        (index + 1) * size == index * size + size,
        index + 1 < (length + size - 1) / size ==> index * size + size < length,
        index + 1 == (length + size - 1) / size ==> length <= index * size + size,
{
}

/// Cuts bytes into pages.
pub fn split_pages(bytes: &Vec<u8>, size: usize) -> (pages: Vec<Vec<u8>>)
    requires
        size > 0,
    ensures
        page_views(pages@) == pages_of(bytes@, size as nat),
{
    let mut pages: Vec<Vec<u8>> = Vec::new();
    let mut start: usize = 0;
    let ghost count = page_count(bytes@.len(), size as nat);
    proof {
        assert(page_views(pages@) =~= pages_of(bytes@, size as nat).take(0));
        assert(0 * size == 0) by (nonlinear_arith);
        lemma_no_pages(bytes@.len() as int, size as int);
    }
    while start < bytes.len()
        invariant
            size > 0,
            count == page_count(bytes@.len(), size as nat),
            pages@.len() <= count,
            start < bytes@.len() ==> start == pages@.len() * size,
            start < bytes@.len() <==> pages@.len() < count,
            page_views(pages@) == pages_of(bytes@, size as nat).take(pages@.len() as int),
        decreases bytes@.len() - start,
    {
        let ghost index = pages@.len() as int;
        let ghost before = pages@;
        proof {
            lemma_page_bounds(bytes@.len() as int, size as int, index);
        }
        let end: usize = if bytes.len() - start > size {
            start + size
        } else {
            bytes.len()
        };
        let piece = copy_range(bytes, start, end);
        let ghost model = piece@;
        pages.push(piece);
        proof {
            assert(model =~= page(bytes@, size as nat, index as nat));
            assert(page_views(pages@) =~= page_views(before).push(model));
            assert(pages_of(bytes@, size as nat).take(index + 1) =~= pages_of(
                bytes@,
                size as nat,
            ).take(index).push(model));
        }
        start = end;
    }
    assert(pages_of(bytes@, size as nat).take(count as int) =~= pages_of(bytes@, size as nat));
    pages
}

pub(crate) proof fn lemma_no_pages(length: int, size: int)
    by (nonlinear_arith)
    requires
        length >= 0,
        size > 0,
    ensures
        0 < length <==> 0 < (length + size - 1) / size,
{
}

fn copy_range(bytes: &Vec<u8>, start: usize, end: usize) -> (copy: Vec<u8>)
    requires
        start <= end <= bytes@.len(),
    ensures
        copy@ == bytes@.subrange(start as int, end as int),
{
    let mut copy: Vec<u8> = Vec::new();
    let mut i: usize = start;
    assert(copy@ =~= bytes@.subrange(start as int, start as int));
    while i < end
        invariant
            start <= i <= end <= bytes@.len(),
            copy@ == bytes@.subrange(start as int, i as int),
        decreases end - i,
    {
        copy.push(bytes[i]);
        assert(copy@ =~= bytes@.subrange(start as int, i + 1));
        i += 1;
    }
    copy
}

/// How many pages an object makes, if it may be sent at all.
pub fn checked_catalog_page_count(limits: &CatalogLimits, length: usize) -> (count: Option<u32>)
    requires
        limits.page_bytes > 0,
    ensures
        count == (if 0 < length <= limits.max_bytes && page_count(
            length as nat,
            limits.page_bytes as nat,
        ) <= limits.max_pages {
            Some(page_count(length as nat, limits.page_bytes as nat) as u32)
        } else {
            None
        }),
{
    if length == 0 || length > limits.max_bytes {
        return None;
    }
    let pages: usize = (length - 1) / limits.page_bytes;
    proof {
        lemma_round_up(length as int, limits.page_bytes as int);
    }
    if pages < limits.max_pages as usize {
        Some(pages as u32 + 1)
    } else {
        None
    }
}

proof fn lemma_round_up(length: int, size: int)
    by (nonlinear_arith)
    requires
        length > 0,
        size > 0,
    ensures
        (length + size - 1) / size == (length - 1) / size + 1,
{
}

/// A first page is acceptable.
pub open spec fn first_page_valid(
    limits: CatalogLimits,
    total: u32,
    hash: Seq<u8>,
    bytes: Seq<u8>,
) -> bool {
    &&& 0 < total <= limits.max_pages
    &&& 0 < bytes.len() <= limits.page_bytes
    &&& hash == hash_of(bytes)
}

/// A page behind others is acceptable.
pub open spec fn next_page_valid(
    limits: CatalogLimits,
    expected_total: u32,
    gathered: nat,
    total: u32,
    hash: Seq<u8>,
    bytes: Seq<u8>,
) -> bool {
    &&& total == expected_total
    &&& 0 < bytes.len() <= limits.page_bytes
    &&& hash == hash_of(bytes)
    &&& gathered + bytes.len() <= limits.max_bytes
}

/// Whether bytes have a hash.
pub fn hash_matches(hash: &Id32, bytes: &Vec<u8>) -> (matches: bool)
    ensures
        matches == (hash@ == hash_of(bytes@)),
{
    let actual = content_hash(bytes.as_slice());
    actual.equals(hash)
}

/// A page of an announced object is acceptable; it may be empty.
pub open spec fn announced_page_valid(
    limits: CatalogLimits,
    expected_total: u32,
    gathered: nat,
    total: u32,
    hash: Seq<u8>,
    bytes: Seq<u8>,
) -> bool {
    &&& total == expected_total
    &&& hash == hash_of(bytes)
    &&& bytes.len() <= limits.page_bytes
    &&& gathered + bytes.len() <= limits.max_bytes
}

pub(crate) proof fn lemma_joined_upto(bytes: Seq<u8>, size: nat, n: int)
    requires
        size > 0,
        0 <= n <= page_count(bytes.len(), size),
    ensures
        joined(pages_of(bytes, size).take(n)) == bytes.take(
            if n * size < bytes.len() {
                n * size
            } else {
                bytes.len() as int
            },
        ),
        n < page_count(bytes.len(), size) ==> n * size < bytes.len(),
        n == page_count(bytes.len(), size) ==> bytes.len() <= n * size,
    decreases n,
{
    let pages = pages_of(bytes, size);
    if n == 0 {
        assert(0 * size == 0) by (nonlinear_arith);
        assert(pages.take(0) =~= Seq::empty());
        assert(joined(pages.take(0)) =~= bytes.take(0));
        lemma_no_pages(bytes.len() as int, size as int);
    } else {
        lemma_joined_upto(bytes, size, n - 1);
        lemma_page_bounds(bytes.len() as int, size as int, n - 1);
        assert(pages.take(n).drop_last() =~= pages.take(n - 1));
        assert(pages.take(n).last() == page(bytes, size, (n - 1) as nat));
        let start = (n - 1) * size;
        let end = if start + size < bytes.len() {
            start + size
        } else {
            bytes.len() as int
        };
        assert(joined(pages.take(n)) =~= bytes.take(start) + bytes.subrange(start, end));
        assert(bytes.take(start) + bytes.subrange(start, end) =~= bytes.take(end));
        if n < page_count(bytes.len(), size) {
            lemma_page_bounds(bytes.len() as int, size as int, n);
        }
    }
}

/// The pages into which an object is cut, put one behind the other, are the
/// object.
pub proof fn pages_round_trip(bytes: Seq<u8>, size: nat)
    requires
        size > 0,
    ensures
        joined(pages_of(bytes, size)) == bytes,
{
    let count = page_count(bytes.len(), size) as int;
    lemma_joined_upto(bytes, size, count);
    assert(pages_of(bytes, size).take(count) =~= pages_of(bytes, size));
    assert(bytes.take(bytes.len() as int) =~= bytes);
    assert(joined(pages_of(bytes, size)) =~= bytes);
}

/// Every page but the last is as long as pages are, and the last holds what is left,
/// which is something. There are just as many pages as are needed.
pub proof fn every_page_but_the_last_is_full(bytes: Seq<u8>, size: nat, index: int)
    requires
        size > 0,
        0 <= index < pages_of(bytes, size).len(),
    ensures
        index + 1 < pages_of(bytes, size).len() ==> pages_of(bytes, size)[index].len() == size,
        0 < pages_of(bytes, size)[index].len() <= size,
        pages_of(bytes, size)[index][0] == bytes[index * size],
        (pages_of(bytes, size).len() - 1) * size < bytes.len() <= pages_of(bytes, size).len() * size,
{
    let count = pages_of(bytes, size).len() as int;
    lemma_page_bounds(bytes.len() as int, size as int, index);
    lemma_page_bounds(bytes.len() as int, size as int, count - 1);
}

} // verus!
