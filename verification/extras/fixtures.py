#!/usr/bin/env python3
"""Build the bzip2-compressed test archive of tests/archives.rs.

The archive is DAR format 11.3 with the archive codec 'y' (bzip2), holding
`payload.txt` (2000 copies of one 68-byte line, stored compressed) and
`small.txt` ("tiny\\n", stored as is). Its catalogue is one bzip2 stream after
the seqt_catalogue escape. bzip2-rs only decodes, so the compressed streams
are made here and printed as Rust byte constants.
"""

import bz2

LINE = b"dar-forensic gzip bzip2 xz roundtrip corpus line padding 0123456789\n"
PAYLOAD = LINE * 2000
SMALL = b"tiny\n"
LABEL = bytes([0xC1, 0xC2, 0xC3, 0xC4, 0xC5, 0xC6, 0xC7, 0xC8, 0xC9, 0xCA])
ESCAPE = bytes([0xAD, 0xFD, 0xEA, 0x77, 0x21, 0x43])


def inf(n):
    return bytes([0x80]) + n.to_bytes(4, "big")


def inode():
    v = bytes([0x00]) + inf(0) + inf(0) + bytes([0x01, 0xA4])
    for _ in range(3):
        v += b"s" + inf(1_700_000_000)
    return v


def file_entry(name, comp, offset, size, stored):
    return (bytes([0x06]) + name + b"\x00" + inode() + inf(size) + inf(offset)
            + inf(stored) + bytes([0x00, comp]) + inf(0))


def main():
    zpayload = bz2.compress(PAYLOAD)
    # offsets are relative to the archive origin: the version string "0;3\0"
    # and the codec byte come first
    p_off = 5
    s_off = p_off + len(zpayload)
    cat = LABEL + b"\x00"
    cat += bytes([0x04]) + b"<ROOT>\x00" + inode()
    cat += file_entry(b"payload.txt", ord("y"), p_off, len(PAYLOAD), len(zpayload))
    cat += file_entry(b"small.txt", ord("n"), s_off, len(SMALL), len(SMALL))
    cat += bytes([0x1A])
    zcat = bz2.compress(cat)
    assert ESCAPE not in zpayload
    for name, blob in (("BZ2_PAYLOAD", zpayload), ("BZ2_CATALOGUE", zcat)):
        print(f"const {name}: [u8; {len(blob)}] = [")
        for i in range(0, len(blob), 12):
            print("    " + " ".join(f"0x{b:02x}," for b in blob[i:i + 12]))
        print("];")


if __name__ == "__main__":
    main()
