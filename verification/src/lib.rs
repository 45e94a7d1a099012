//! A host-scoped link crawler: the traversal state of one crawl job, the
//! extraction of links from a page, and the index of discovered links per
//! host. Network access stays with the caller, which hands each fetched page
//! to the job and takes the next address to fetch from it.

pub mod fetch;
pub mod job;
pub mod links;
pub mod storage;
