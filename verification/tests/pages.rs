//! Pages of the hierarchy.

use copc::error::{Error, Fault};
use copc::hierarchy::{Entry, HierarchyPage, VoxelKey};
use copc::pages::{
    assign_hierarchy_page_offsets, hierarchy_entry, hierarchy_page_byte_size,
    plan_hierarchy_pages, write_hierarchy_page_tree, PageItem, HIERARCHY_PAGE_MAX_ENTRIES,
};

fn large_hierarchy() -> Vec<Entry> {
    let mut entries = vec![Entry {
        key: VoxelKey::root(),
        offset: 1,
        byte_size: 1,
        point_count: 1,
    }];
    let mut offset = 2;
    for z in 0..16 {
        for y in 0..16 {
            for x in 0..16 {
                entries.push(Entry {
                    key: VoxelKey { level: 4, x, y, z },
                    offset,
                    byte_size: 1,
                    point_count: 1,
                });
                offset += 1;
            }
        }
    }
    entries.sort_by_key(|entry| entry.key);
    entries
}

#[test]
fn hierarchy_plan_splits_large_root_page() {
    let entries = large_hierarchy();

    let mut plan = plan_hierarchy_pages(&entries, VoxelKey::root()).unwrap();
    let start = 1024;
    let end = assign_hierarchy_page_offsets(&mut plan, start).unwrap();

    assert!(plan.pages[0].byte_size < hierarchy_page_byte_size(entries.len()).unwrap());
    assert!(plan.pages[0]
        .items
        .iter()
        .any(|item| matches!(item, PageItem::Child(_))));

    let mut out = vec![0; start as usize];
    out.extend_from_slice(&write_hierarchy_page_tree(&plan, start).unwrap());
    assert_eq!(end, out.len() as u64);
}

/// Every entry is found again by following the pages from the root.
#[test]
fn written_pages_lead_to_every_entry() {
    let entries = large_hierarchy();
    let mut plan = plan_hierarchy_pages(&entries, VoxelKey::root()).unwrap();
    let start = 1024u64;
    assign_hierarchy_page_offsets(&mut plan, start).unwrap();
    let bytes = write_hierarchy_page_tree(&plan, start).unwrap();

    let mut found = Vec::new();
    let mut pending = vec![(plan.pages[0].offset, plan.pages[0].byte_size)];
    let mut pages = 0;
    while let Some((offset, size)) = pending.pop() {
        pages += 1;
        let at = (offset - start) as usize;
        let page = HierarchyPage::from_le_bytes(&bytes[at..at + size as usize]).unwrap();
        assert!(page.entries().len() <= HIERARCHY_PAGE_MAX_ENTRIES);
        for entry in page.entries() {
            if entry.is_child_page() {
                pending.push((entry.offset, entry.byte_size as u64));
            } else {
                found.push(*entry);
            }
        }
    }
    found.sort_by_key(|entry| entry.key);
    assert_eq!(entries, found);
    assert_eq!(plan.pages.len(), pages);
}

#[test]
fn small_hierarchies_need_one_page() {
    let entries: Vec<Entry> = large_hierarchy().into_iter().take(9).collect();
    let plan = plan_hierarchy_pages(&entries, VoxelKey::root()).unwrap();
    assert_eq!(1, plan.pages.len());
    assert_eq!(9, plan.pages[0].items.len());
}

#[test]
fn pages_beyond_the_last_offset_are_refused() {
    let entries = large_hierarchy();
    let mut plan = plan_hierarchy_pages(&entries, VoxelKey::root()).unwrap();
    assert!(assign_hierarchy_page_offsets(&mut plan, u64::MAX).is_err());
}

#[test]
fn chunks_that_do_not_fit_an_entry_are_refused() {
    let key = VoxelKey::root();
    let entry = hierarchy_entry(key, 9, 10, 11).unwrap();
    assert_eq!((9, 10, 11), (entry.offset, entry.byte_size, entry.point_count));
    assert!(matches!(
        hierarchy_entry(key, 0, 1 << 31, 1),
        Err(Error::InvalidInput(Fault::ChunkExceedsI32))
    ));
    assert!(matches!(
        hierarchy_entry(key, 0, 1, 1 << 31),
        Err(Error::InvalidInput(Fault::NodeCountExceedsI32))
    ));
}
