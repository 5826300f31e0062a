//! Disk analysis and reviewed cleanup: the verified core.
pub mod bytes;
pub mod cleanup_path;
pub mod compare;
pub mod console;
pub mod crc64;
pub mod deletion;
pub mod dialogs;
pub mod elevation;
pub mod enumeration;
pub mod eta;
pub mod example;
pub mod executor;
pub mod forest;
pub mod frame;
pub mod git_audit;
pub mod growth;
pub mod keyed;
pub mod legacy;
pub mod links;
pub mod locks;
pub mod model;
pub mod ntfs;
pub mod ntfs_index;
pub mod ntfs_record;
pub mod ntfs_stream;
pub mod order;
pub mod path_order;
pub mod plan;
pub mod platform;
pub mod refs;
pub mod refs_index;
pub mod refs_tree;
pub mod report;
pub mod review;
pub mod review_depth;
pub mod review_facts;
pub mod review_tree;
pub mod review_window;
pub mod rollup;
pub mod scanning;
pub mod selection;
pub mod stored;
pub mod subtree;
pub mod text;
pub mod tree;
pub mod treemap;
pub mod treemap_lines;
pub mod treemap_text;
pub mod volume;
pub mod walk;
pub mod wide;
pub mod window_state;
