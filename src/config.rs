use vstd::prelude::*;

verus! {

/// What a compaction run reports.
#[derive(Debug, Clone, Copy, PartialEq, Eq, Structural)]
pub struct CompactionStats {
    pub sstables_merged: usize,
    pub space_reclaimed: u64,
    pub duration_ms: u64,
}

/// How runs are picked for merging.
#[derive(Debug, Clone, Copy, PartialEq, Eq, Structural)]
pub enum CompactionStrategy {
    /// Level 0 is merged into level 1 once it holds `level0_sstables_trigger`
    /// runs; level L >= 1 is merged down once it holds more than
    /// `level_size_multiplier`^L times the base level size.
    Leveled { level_size_multiplier: u64, level0_sstables_trigger: usize },
    /// Runs are grouped, newest first, into tiers whose size cap starts at
    /// `max_tier_size` and grows by `tier_size_multiplier` per tier; a full
    /// tier is merged into one run.
    Tiered { max_tier_size: u64, tier_size_multiplier: u64 },
    /// Runs are bucketed by size into `bucket_count` equal ranges between
    /// the two bounds; neighbouring runs in one bucket are merged.
    SizeTiered { min_sstable_size: u64, max_sstable_size: u64, bucket_count: usize },
}

#[derive(Debug, Clone, Copy, PartialEq, Eq, Structural)]
pub struct CompactionConfig {
    pub strategy: CompactionStrategy,
    pub enabled: bool,
    pub background_interval_secs: u64,
    pub max_sstable_per_level: usize,
}

impl Default for CompactionConfig {
    fn default() -> (r: Self)
        ensures
            r.strategy == (CompactionStrategy::Leveled { level_size_multiplier: 10, level0_sstables_trigger: 4 }),
            r.enabled,
            r.background_interval_secs == 300,
            r.max_sstable_per_level == 10,
    {
        CompactionConfig {
            strategy: CompactionStrategy::Leveled { level_size_multiplier: 10, level0_sstables_trigger: 4 },
            enabled: true,
            background_interval_secs: 300,
            max_sstable_per_level: 10,
        }
    }
}

#[derive(Debug, Clone, Copy, PartialEq, Eq, Structural)]
pub struct GcConfig {
    pub enabled: bool,
    pub gc_interval_secs: u64,
    pub version_retention_secs: u64,
    pub min_versions_to_keep: u32,
}

impl Default for GcConfig {
    fn default() -> (r: Self)
        ensures
            r.enabled,
            r.gc_interval_secs == 3600,
            r.version_retention_secs == 86400,
            r.min_versions_to_keep == 1,
    {
        GcConfig { enabled: true, gc_interval_secs: 3600, version_retention_secs: 86400, min_versions_to_keep: 1 }
    }
}

/// What a garbage-collection run reports.
#[derive(Debug, Clone, Copy, PartialEq, Eq, Structural)]
pub struct GcStats {
    pub versions_removed: usize,
    pub space_reclaimed: u64,
    pub duration_ms: u64,
}

} // verus!
