use tg_rcore_tutorial::gpu::{
    dma_layout, fb_height, fb_len, fb_paddr, fb_width, framebuffer_mapping, FbInfo, GpuFrame, VirtioHal,
    DMA_BASE, DMA_SIZE, FB_BASE,
};

#[test]
fn frame_getters_give_what_was_recorded() {
    let empty = GpuFrame::empty();
    assert_eq!((fb_paddr(&empty), fb_len(&empty), fb_width(&empty), fb_height(&empty)), (0, 0, 0, 0));
    let f = GpuFrame::record(0x8100_0000, 640 * 480 * 4, 640, 480);
    assert_eq!(fb_paddr(&f), 0x8100_0000);
    assert_eq!(fb_len(&f), 1_228_800);
    assert_eq!(fb_width(&f), 640);
    assert_eq!(fb_height(&f), 480);
}

#[test]
fn fb_info_defaults_and_pixel_size() {
    assert_eq!(FbInfo::default(), FbInfo { ptr: 0, len: 0, width: 0, height: 0 });
    assert_eq!(FbInfo::BPP, 4);
}

#[test]
fn dma_pool_hands_out_consecutive_pages() {
    let mut hal = VirtioHal::new();
    assert_eq!(hal.cursor, DMA_BASE);
    assert!(hal.can_alloc(1));
    let a = hal.dma_alloc(1);
    let b = hal.dma_alloc(3);
    let c = hal.dma_alloc(0);
    assert_eq!(a, 0x8080_0000);
    assert_eq!(b, 0x8080_1000);
    assert_eq!(c, 0x8080_4000);
    assert_eq!(hal.dma_dealloc(a, 1), 0);
    assert_eq!(hal.cursor, 0x8080_4000);
}

#[test]
fn dma_pool_refuses_what_does_not_fit() {
    let hal = VirtioHal::new();
    assert!(hal.can_alloc(DMA_SIZE / 4096));
    assert!(!hal.can_alloc(DMA_SIZE / 4096 + 1));
    let mut hal = VirtioHal::new();
    hal.dma_alloc(1536);
    assert_eq!(hal.cursor, DMA_BASE + DMA_SIZE);
    assert!(hal.can_alloc(0));
    assert!(!hal.can_alloc(1));
}

#[test]
fn dma_layout_is_whole_aligned_pages() {
    assert_eq!(dma_layout(3), (3 * 4096, 4096));
    assert_eq!(dma_layout(0), (0, 4096));
}

#[test]
fn framebuffer_lands_at_the_fixed_user_address() {
    let m = framebuffer_mapping(0x8100_0000, 640 * 480 * 4);
    assert_eq!(m.vpn_start, FB_BASE >> 12);
    assert_eq!(m.vpn_end - m.vpn_start, 300);
    assert_eq!(m.ppn, 0x81000);
    let m = framebuffer_mapping(0x8100_0000, 4097);
    assert_eq!(m.vpn_end - m.vpn_start, 2);
    let m = framebuffer_mapping(0x8100_0000, 0);
    assert_eq!(m.vpn_end, m.vpn_start);
}
