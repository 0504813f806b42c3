# hevc_grain

Film grain metadata in HEVC streams: finding it, reading it as a grain table, putting it in,
replacing it and taking it out. Grain travels as AFGS1 payloads in SEI messages.

- `src/` is the library, verified with Verus. What it takes from outside is trusted, not proved:
  the frames and planes of `v_frame` (`new_picture8`, `new_picture16`, `copy8`, `copy16`,
  `plane_width`, `plane_height`, `row_mut` in `frame`), the vectors of `arrayvec` (`new_items`,
  `push_item` and the slices in `grain`), the fractions of `num-rational` (`lowest_terms` in
  `timing`) and the sort of the standard library (`sort_pairs` in `timing`). The doc comment of
  each says what is claimed of it.
  - `bits`, `escape`, `sei`, `nal`: bit strings, emulation prevention, SEI messages, NAL units.
  - `grain`, `afgs1_read`, `afgs1_write`: grain descriptions and their payloads.
  - `packet`: grain in a packet. `stream`, `inspect`, `edit`: grain in a whole stream.
  - `timing`, `table`: timestamps, the order of frames, grain tables.
  - `video`, `reader`, `frame`, `decode`: the video stream, its frames and their pixels.
  - `profile`: how long the steps of a run take.
  - `afgs1_laws`, `afgs1_read_laws`, `nal_laws`, `packet_laws`, `edit_laws`: what holds across
    functions, above all that the grain that was put in is the grain that is found, and which parts
    of a payload make a difference to that.
- `tests/` runs the library on concrete values.
- `app/` is ordinary Rust around the library: files, decoders, clocks, threads, messages.

Packets and pictures that run into the limits of the machine, or would make a counter overflow,
are outside of what the library's functions take. For each such function there is one that tells
these inputs apart (`is_packet_modifiable`, `is_grain_readable`, `is_pts_in_range`, `can_decode_u8`
and others).
