use mid::windows::{
    BUS_TYPE_1394, BUS_TYPE_MMC, BUS_TYPE_SD, BUS_TYPE_USB, STORAGE_DEVICE_DESCRIPTOR_LEN,
};
use windows_sys::Win32::Storage::FileSystem::{BusType1394, BusTypeMmc, BusTypeSd, BusTypeUsb};
use windows_sys::Win32::System::Ioctl::STORAGE_DEVICE_DESCRIPTOR;

#[test]
fn bus_types_match_windows_sys() {
    assert_eq!(BUS_TYPE_USB, BusTypeUsb);
    assert_eq!(BUS_TYPE_SD, BusTypeSd);
    assert_eq!(BUS_TYPE_MMC, BusTypeMmc);
    assert_eq!(BUS_TYPE_1394, BusType1394);
}

#[test]
fn descriptor_layout_matches_windows_sys() {
    assert_eq!(
        std::mem::size_of::<STORAGE_DEVICE_DESCRIPTOR>(),
        STORAGE_DEVICE_DESCRIPTOR_LEN
    );
}
