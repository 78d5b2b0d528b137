use early_boot::kernel_image::{kernel_range, KernelEnd, SectionBounds};

fn sections() -> Vec<SectionBounds> {
    vec![
        SectionBounds { addr: 0x110000, size: 0x3000 },
        SectionBounds { addr: 0x100000, size: 0x200 },
        SectionBounds { addr: 0x120000, size: 0x8000 },
    ]
}

#[test]
fn kernel_range_lowest_end() {
    assert_eq!(
        kernel_range(&sections(), KernelEnd::LowestSectionEnd),
        Some((0x100000, 0x100200))
    );
}

#[test]
fn kernel_range_highest_end() {
    assert_eq!(
        kernel_range(&sections(), KernelEnd::HighestSectionEnd),
        Some((0x100000, 0x128000))
    );
}

#[test]
fn kernel_range_without_sections() {
    assert_eq!(kernel_range(&Vec::new(), KernelEnd::HighestSectionEnd), None);
}
