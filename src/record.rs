use vstd::prelude::*;

verus! {

/// Resource figures of one container. Fractional quantities are kept in
/// hundredths (`1234` stands for `12.34`).
#[derive(Clone, Copy, Debug, PartialEq, Eq, Structural)]
pub struct Metrics {
    pub cpu_percent_centi: u64,
    pub memory_percent_centi: u64,
    pub memory_mb_centi: u64,
    pub disk_mb_centi: u64,
    pub write_kbytes: u64,
    pub read_kbytes: u64,
    pub io_read_ops: u64,
    pub io_write_ops: u64,
}

/// One benchmark container as seen in a snapshot.
#[derive(Clone, Debug)]
pub struct ContainerRecord {
    pub pid: u32,
    pub name: String,
    pub container_id: String,
    pub cmdline: String,
    pub metrics: Metrics,
}

impl ContainerRecord {
    /// A copy equal to `self` in every field.
    pub fn duplicate(&self) -> (r: ContainerRecord)
        ensures
            r == *self,
    {
        ContainerRecord {
            pid: self.pid,
            name: self.name.clone(),
            container_id: self.container_id.clone(),
            cmdline: self.cmdline.clone(),
            metrics: self.metrics,
        }
    }
}

/// Host-level memory and CPU figures; the CPU share is in hundredths of a percent.
#[derive(Clone, Copy, Debug, PartialEq, Eq, Structural)]
pub struct HostMemory {
    pub total_mb: u64,
    pub free_mb: u64,
    pub used_mb: u64,
    pub cpu_percent_centi: u64,
}

/// Host figures and the containers running at one instant, in the order read.
#[derive(Clone, Debug)]
pub struct Snapshot {
    pub memory: HostMemory,
    pub containers: Vec<ContainerRecord>,
}

/// A container as the runtime lists it: its identifier and its names.
#[derive(Clone, Debug)]
pub struct RuntimeContainer {
    pub id: String,
    pub names: Vec<String>,
}

/// Workload class of a container, read from its launch command.
#[derive(Clone, Copy, Debug, PartialEq, Eq, Structural)]
pub enum Category {
    Cpu,
    Ram,
    Io,
    Disk,
    Unknown,
}

impl Category {
    pub open spec fn label_spec(self) -> Seq<char> {
        match self {
            Category::Cpu => "cpu"@,
            Category::Ram => "ram"@,
            Category::Io => "io"@,
            Category::Disk => "disk"@,
            Category::Unknown => "unknown"@,
        }
    }

    /// The lower-case name of the category.
    pub fn label(&self) -> (r: &'static str)
        ensures
            r@ == self.label_spec(),
    {
        match self {
            Category::Cpu => "cpu",
            Category::Ram => "ram",
            Category::Io => "io",
            Category::Disk => "disk",
            Category::Unknown => "unknown",
        }
    }
}

} // verus!
