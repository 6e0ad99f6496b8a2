//! OS information: the application info fields and the bootloader info.
use vstd::prelude::*;

use crate::transport::TransportError;

verus! {

/// OS group ID.
pub const GROUP_OS: u16 = 0;
/// Application info command ID.
pub const CMD_APPLICATION_INFO: u8 = 7;
/// Bootloader info command ID.
pub const CMD_BOOTLOADER_INFO: u8 = 8;

/// The fields of the application info, in the order they are queried.
#[derive(Clone, Copy, Debug, PartialEq, Eq, Structural)]
pub enum AppInfoField {
    KernelName,
    NodeName,
    KernelRelease,
    KernelVersion,
    BuildTime,
    Machine,
    Processor,
    HardwarePlatform,
    OperatingSystem,
}

/// The format letter that queries a field.
pub open spec fn field_format(f: AppInfoField) -> Seq<char> {
    match f {
        AppInfoField::KernelName => "s"@,
        AppInfoField::NodeName => "n"@,
        AppInfoField::KernelRelease => "r"@,
        AppInfoField::KernelVersion => "v"@,
        AppInfoField::BuildTime => "b"@,
        AppInfoField::Machine => "m"@,
        AppInfoField::Processor => "p"@,
        AppInfoField::HardwarePlatform => "i"@,
        AppInfoField::OperatingSystem => "o"@,
    }
}

/// The fields in the order they are queried.
pub open spec fn app_info_fields() -> Seq<AppInfoField> {
    seq![
        AppInfoField::KernelName,
        AppInfoField::NodeName,
        AppInfoField::KernelRelease,
        AppInfoField::KernelVersion,
        AppInfoField::BuildTime,
        AppInfoField::Machine,
        AppInfoField::Processor,
        AppInfoField::HardwarePlatform,
        AppInfoField::OperatingSystem,
    ]
}

impl AppInfoField {
    /// The format string that queries this field.
    pub fn format(&self) -> (r: &'static str)
        ensures
            r@ == field_format(*self),
    {
        match self {
            AppInfoField::KernelName => "s",
            AppInfoField::NodeName => "n",
            AppInfoField::KernelRelease => "r",
            AppInfoField::KernelVersion => "v",
            AppInfoField::BuildTime => "b",
            AppInfoField::Machine => "m",
            AppInfoField::Processor => "p",
            AppInfoField::HardwarePlatform => "i",
            AppInfoField::OperatingSystem => "o",
        }
    }

    /// The fields in the order they are queried.
    pub fn all() -> (r: Vec<AppInfoField>)
        ensures
            r@ == app_info_fields(),
    {
        let r = vec![
            AppInfoField::KernelName,
            AppInfoField::NodeName,
            AppInfoField::KernelRelease,
            AppInfoField::KernelVersion,
            AppInfoField::BuildTime,
            AppInfoField::Machine,
            AppInfoField::Processor,
            AppInfoField::HardwarePlatform,
            AppInfoField::OperatingSystem,
        ];
        assert(r@ =~= app_info_fields());
        r
    }

    /// Whether a failed query of this field still lets the info be built:
    /// only the build time may be missing.
    pub fn may_fail(&self) -> (r: bool)
        ensures
            r == (*self == AppInfoField::BuildTime),
    {
        match self {
            AppInfoField::BuildTime => true,
            _ => false,
        }
    }
}

/// The application info (`uname`-like) of the device.
#[derive(Clone, Debug)]
pub struct ApplicationInfo {
    pub kernel_name: Option<String>,
    pub node_name: Option<String>,
    pub kernel_release: Option<String>,
    pub kernel_version: Option<String>,
    pub build_time: Option<String>,
    pub machine: Option<String>,
    pub processor: Option<String>,
    pub hardware_platform: Option<String>,
    pub operating_system: Option<String>,
}

/// The value of one field of the info.
pub open spec fn field_value(info: ApplicationInfo, f: AppInfoField) -> Option<String> {
    match f {
        AppInfoField::KernelName => info.kernel_name,
        AppInfoField::NodeName => info.node_name,
        AppInfoField::KernelRelease => info.kernel_release,
        AppInfoField::KernelVersion => info.kernel_version,
        AppInfoField::BuildTime => info.build_time,
        AppInfoField::Machine => info.machine,
        AppInfoField::Processor => info.processor,
        AppInfoField::HardwarePlatform => info.hardware_platform,
        AppInfoField::OperatingSystem => info.operating_system,
    }
}

impl Default for ApplicationInfo {
    fn default() -> (r: Self)
        ensures
            forall|f: AppInfoField| #[trigger] field_value(r, f) is None,
    {
        ApplicationInfo {
            kernel_name: None,
            node_name: None,
            kernel_release: None,
            kernel_version: None,
            build_time: None,
            machine: None,
            processor: None,
            hardware_platform: None,
            operating_system: None,
        }
    }
}

impl ApplicationInfo {
    /// Sets one field, leaving the others.
    pub fn set(&mut self, field: AppInfoField, value: Option<String>)
        ensures
            field_value(*final(self), field) == value,
            forall|g: AppInfoField|
                g != field ==> #[trigger] field_value(*final(self), g) == field_value(*old(self), g),
    {
        match field {
            AppInfoField::KernelName => self.kernel_name = value,
            AppInfoField::NodeName => self.node_name = value,
            AppInfoField::KernelRelease => self.kernel_release = value,
            AppInfoField::KernelVersion => self.kernel_version = value,
            AppInfoField::BuildTime => self.build_time = value,
            AppInfoField::Machine => self.machine = value,
            AppInfoField::Processor => self.processor = value,
            AppInfoField::HardwarePlatform => self.hardware_platform = value,
            AppInfoField::OperatingSystem => self.operating_system = value,
        }
    }
}

/// Records the outcome of querying one field: a value is stored; a failed
/// query of the build time leaves it absent; any other failure ends the
/// collection with that error, and the info is left unchanged.
pub fn record_app_info_field(
    info: &mut ApplicationInfo,
    field: AppInfoField,
    fetched: Result<String, TransportError>,
) -> (r: Result<(), TransportError>)
    ensures
        match fetched {
            Ok(v) => r is Ok && field_value(*final(info), field) == Some(v),
            Err(e) => if field == AppInfoField::BuildTime {
                r is Ok && field_value(*final(info), field) is None
            } else {
                r == Err::<(), TransportError>(e) && *final(info) == *old(info)
            },
        },
        r is Ok ==> forall|g: AppInfoField|
            g != field ==> #[trigger] field_value(*final(info), g) == field_value(*old(info), g),
{
    match fetched {
        Ok(v) => {
            info.set(field, Some(v));
            Ok(())
        },
        Err(e) => {
            if field.may_fail() {
                info.set(field, None);
                Ok(())
            } else {
                Err(e)
            }
        },
    }
}

/// The name of an MCUboot mode number.
pub open spec fn mode_name(mode: i32) -> Option<Seq<char>> {
    if mode == 0 {
        Some("MCUBOOT_MODE_SINGLE_SLOT"@)
    } else if mode == 1 {
        Some("MCUBOOT_MODE_SWAP_USING_SCRATCH"@)
    } else if mode == 2 {
        Some("MCUBOOT_MODE_UPGRADE_ONLY"@)
    } else if mode == 3 {
        Some("MCUBOOT_MODE_SWAP_USING_MOVE"@)
    } else if mode == 4 {
        Some("MCUBOOT_MODE_DIRECT_XIP"@)
    } else if mode == 5 {
        Some("MCUBOOT_MODE_DIRECT_XIP_WITH_REVERT"@)
    } else if mode == 6 {
        Some("MCUBOOT_MODE_RAM_LOAD"@)
    } else if mode == 7 {
        Some("MCUBOOT_MODE_FIRMWARE_LOADER"@)
    } else if mode == 8 {
        Some("MCUBOOT_MODE_SINGLE_SLOT_RAM_LOAD"@)
    } else if mode == 9 {
        Some("MCUBOOT_MODE_SWAP_USING_OFFSET"@)
    } else {
        None
    }
}

/// The spec view of an optional static string.
pub open spec fn opt_str_view(s: Option<&str>) -> Option<Seq<char>> {
    match s {
        Some(t) => Some(t@),
        None => None,
    }
}

/// The name of an MCUboot mode number, `None` for an unknown mode.
pub fn mcuboot_mode_name(mode: i32) -> (r: Option<&'static str>)
    ensures
        opt_str_view(r) == mode_name(mode),
{
    match mode {
        0 => Some("MCUBOOT_MODE_SINGLE_SLOT"),
        1 => Some("MCUBOOT_MODE_SWAP_USING_SCRATCH"),
        2 => Some("MCUBOOT_MODE_UPGRADE_ONLY"),
        3 => Some("MCUBOOT_MODE_SWAP_USING_MOVE"),
        4 => Some("MCUBOOT_MODE_DIRECT_XIP"),
        5 => Some("MCUBOOT_MODE_DIRECT_XIP_WITH_REVERT"),
        6 => Some("MCUBOOT_MODE_RAM_LOAD"),
        7 => Some("MCUBOOT_MODE_FIRMWARE_LOADER"),
        8 => Some("MCUBOOT_MODE_SINGLE_SLOT_RAM_LOAD"),
        9 => Some("MCUBOOT_MODE_SWAP_USING_OFFSET"),
        _ => None,
    }
}

/// The bootloader of the device.
#[derive(Clone, Debug)]
pub enum BootloaderInfo {
    MCUboot { name: &'static str, mode: i32, mode_name: Option<&'static str>, no_downgrade: bool },
    Unknown { name: String },
}

/// Classifies the bootloader name the device reports: `None` for MCUboot,
/// whose mode must be queried next; the unknown bootloader otherwise.
pub fn unknown_bootloader(bootloader: String) -> (r: Option<BootloaderInfo>)
    ensures
        bootloader@ == "MCUboot"@ ==> r is None,
        bootloader@ != "MCUboot"@ ==> r == Some(BootloaderInfo::Unknown { name: bootloader }),
{
    let mcuboot = String::from_str("MCUboot");
    if bootloader == mcuboot {
        None
    } else {
        Some(BootloaderInfo::Unknown { name: bootloader })
    }
}

/// The info of an MCUboot bootloader from its mode query.
pub fn mcuboot_info(mode: i32, no_downgrade: bool) -> (r: BootloaderInfo)
    ensures
        match r {
            BootloaderInfo::MCUboot { name, mode: m, mode_name: n, no_downgrade: d } => name@
                == "MCUboot"@ && m == mode && opt_str_view(n) == mode_name(mode) && d
                == no_downgrade,
            BootloaderInfo::Unknown { .. } => false,
        },
{
    BootloaderInfo::MCUboot {
        name: "MCUboot",
        mode,
        mode_name: mcuboot_mode_name(mode),
        no_downgrade,
    }
}

} // verus!
