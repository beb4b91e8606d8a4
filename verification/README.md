# cfb

A screen recorder for the Linux framebuffer. Recording writes the raw frames
and their grab times to a capture file as fast as possible; compiling turns a
capture file into raw frame files, PNG images or an MP4 video later.

- `src/` is the verified library:
  - `capture`: the capture file format, reading it back (alpha removal and
    red/blue swap included) and the round-trip law with what the recorder writes;
  - `record`: the header and frame records the recorder writes;
  - `compile`: the raw and PNG files and the H.264 video a capture compiles to;
  - `png`, `h264`: the calls into `image` and `openh264`;
  - `framebuffer`: a framebuffer device as its sysfs files describe it;
  - `text`: decimal numbers in file names;
  - `cli`: the command line's arguments.
- `app/` holds `main`, argument parsing with clap, the device and file I/O,
  the floating-point frame timing and the MP4 muxing with minimp4.
- `tests/` runs the library on concrete captures.
