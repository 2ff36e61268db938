# dcheck

Finding and recovering deleted files on NTFS, FAT32 and exFAT volumes, and carving files out
of the raw data of any other. The source, a device or an image of one, is only ever read.

The library is written in Verus. Every function states what it returns for every disk image,
damaged ones included, and that is proved; nothing in it panics.

- `source`: where the bytes come from. `volume`: the partitions and their filesystems.
- `heap`, `clusters`: cluster chains, cluster use, the volume map, free space.
- `fat32`, `exfat`: the FAT family. `walk`: the folders of both.
- `runs`, `mft`, `resolve`, `index`, `order`, `ntfs`: NTFS.
- `scan`: a whole source. `recover`: the bytes of a file, and where they are written.
- `carve`, `plan`: files found by their contents. `progress`: how far a search has come.
  `kind`: what bytes are the start of.
- `glob`, `cli`, `report`, `cells`: choosing, deciding, listing, showing.
- `mount`: how full a mounted filesystem is.
- `model`, `bytes`, `text`: what they all share.

`app/` holds what touches the system. Offsets that are computed from the numbers on a damaged
disk wrap around on overflow.
