# av1an

Encodes a video in chunks, many of them at a time: scene changes are detected, the chunks between
them are encoded in two passes each, and the results are put together.

`src/` is the library, written in Verus. It decides and computes, and never starts a program or
touches a file:

- `cli`: the options that follow from what was given on the command line
- `session`: the steps from a video to an encoded one
- `split`, `rounding`: where a video is cut, to the frame that double precision gives
- `chunk`, `sorting`: the chunks between the splits, longest first
- `encoder`: the passes of a chunk, the lines that an encoder prints, and its command lines
- `progress`: how far all chunks together have come
- `ffmpeg`, `scenedetect`, `command`: the command lines of the other programs, and what their
  output says
- `vapoursynth`: y4m streams
- `path`: what a path is made of
- `text`: numbers and lines

What holds of the library as a whole is stated by the proof functions whose names start with
`law_`. Outside crates are called by functions marked `external_body`; each says in its comment what
is taken for granted about the call.

`app/` is the program around it: the command line, the processes, the threads and the files.
`tests/` runs the library on concrete values.
