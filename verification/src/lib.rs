pub mod abi;
pub mod acpi;
pub mod boot_watchdog;
pub mod canvas;
pub mod bounded;
pub mod clipboard;
pub mod colorpicker;
pub mod deferred;
pub mod device_registry;
pub mod event_bus;
pub mod fat32;
pub mod framebuffer;
pub mod interrupts;
pub mod jobs;
pub mod keyboard;
pub mod klog;
pub mod mouse;
pub mod notifications;
pub mod pci;
pub mod process_model;
pub mod profiler;
pub mod rtc;
pub mod search_index;
pub mod security;
pub mod services;
pub mod slab;
pub mod terminal;
pub mod sysmon;
pub mod text;
pub mod textviewer;
