# npucore

The verified core of a small RISC-V teaching kernel, written in Verus.

- `src/register/scause.rs`: decoding the supervisor trap-cause register into
  a trap cause and encoding a cause back, with both round trips proved.
- `src/arch/`: the timer arithmetic.
- `src/fs/ext4/`: the ext4 file object (reads and writes through a page
  cache, user buffers, seeking, directory listings, creation and removal
  decisions) and the page cache itself.
- `src/fs/ext4_file.rs`: the file object of the lwext4 binding.
- `src/drivers/virtio_blk.rs`: splitting block transfers into device sectors.
- `app/`: the hardware-facing parts (CSR access, the timer interrupt, the
  VirtIO device through `virtio-drivers`, reading the disk blocks of the
  pages a file transfer loads), which the library decides for.
