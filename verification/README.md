# imagen_duplicada

A verified library for finding duplicate photos, with the desktop
application around it.

Images are tied when they have the same SHA-256 content hash (byte-identical
copies) or the same metadata signature: date taken (or file date), pixel
dimensions and camera. When similar images are searched for, images whose
difference hashes (dHash) differ in at most a chosen number of bits are tied
too. The duplicate groups are the classes of images
connected by such ties; a group is "exacto" when two of its images have the
same hash and "probable" otherwise.

- `src/` is the library, verified with Verus:
  - `matcher.rs`: the grouping, its specification as a partition into
    connected classes, the best-first order, and the laws about them;
  - `hasher.rs`: SHA-256 text digests, difference hashes, Hamming distance;
  - `metadata.rs`: metadata signatures, EXIF field reading, date
    normalisation;
  - `commands.rs`: the decisions of a scan (candidate selection by size and
    by signature, live duplicate announcements, history lines, the pixel
    comparison behind difference maps, progress texts);
  - `scanner.rs`, `thumbnails.rs`, `text.rs`: file-type and excluded-folder
    tests, thumbnail names and scaling, text helpers.
- `tests/` runs the library on concrete inputs.
- `app/` holds the Tauri commands, file system access, threads and the
  floating-point colouring of the difference map.
