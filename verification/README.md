# vkSlang

Vulkan layer for Linux that runs libretro `.slangp` presets on any Vulkan
swapchain, with a control panel that changes presets, parameters and the source
resolution while a game runs.

- `src/` is the library: everything that the two programs decide, verified with
  Verus. Settings files (`entries`, `config`, `save`, `saved`, `profile`), the
  control protocol (`ipc`, `socket`, `control`), the picture and where it is
  drawn (`source`, `screen`), frames and swapchains (`frame`, `swapchain`,
  `device`, `loader`, `runtime`, `vulkan`), presets (`presets`, `tree`,
  `arranged`) and the panel (`panel`, `capture`). Below them stand texts, paths
  and orderings (`text`, `path`, `order`, `params`) and single precision
  numbers (`natural`, `single`, `decimal`, `notation`).
- `tests/` runs the library, numbers against the processor and paths against
  the standard library among others.
- `app/` holds the control panel and the layer itself: windows, sockets, files,
  JSON and the calls into Vulkan and librashader.
